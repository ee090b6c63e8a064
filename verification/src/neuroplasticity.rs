//! Neuroplasticity: the synapse and pathway store, its identity hashing and
//! its binary file.
//!
//! File format (`neuroplasticity.bin`): `NPLS`, a version byte, then
//!   [u32 synapse_count] and per synapse
//!     [u32 from][u32 to][f32 weight][u32 frequency][u64 last_activated_ms][f32 plasticity]
//!   [u32 pathway_count] and per pathway
//!     [u64 id][f32 strength][f32 efficiency][u32 usage][u8 len][domain bytes][u16 n][n × u32 node]
//! All numbers are little-endian; a float is carried as its IEEE-754 bit pattern.
//! A reader stops at the first record that does not fit in what is left.
use vstd::prelude::*;
use vstd::utf8::{encode_utf8, encode_utf8_decode_utf8, encode_utf8_valid_utf8};
use crate::codec::{
    le_bytes, le_value, lemma_le_bytes_len, lemma_le_value_of_bytes, lemma_pow256_values,
    lemma_sub, lemma_u32_field, lemma_u64_field, push_le, read_le, u32_at, u64_at,
};
use crate::keyed::{keys_unique, lemma_table_of_unique, lemma_table_unique, lemma_upsert_unique, table, upsert, has_key, Keyed};
use crate::multimodal::{read_u16, read_u32};
use crate::resonance::{fnv_step, FNV_OFFSET, FNV_PRIME};
use crate::text::{lossy_string, lossy_text};

verus! {

/// Bit pattern of the `f32` value 0.5, the reorganization threshold of a new store.
pub const DEFAULT_THRESHOLD_BITS: u32 = 0x3f00_0000;

/// How long a pathway stays plastic: 24 hours.
pub const PLASTICITY_WINDOW_MS: u64 = 86_400_000;

/// A directed connection between two blocks.
#[derive(Clone, Copy, Debug, PartialEq, Eq)]
pub struct SynapticConnection {
    pub from_block: u32,
    pub to_block: u32,
    /// Bit pattern of the `f32` synaptic strength.
    pub weight_bits: u32,
    /// Co-activation count.
    pub frequency: u32,
    pub last_activated_ms: u64,
    /// Bit pattern of the `f32` capacity to change.
    pub plasticity_bits: u32,
}

impl Keyed for SynapticConnection {
    /// A synapse is stored under its (from, to) pair.
    open spec fn key(&self) -> int {
        self.from_block as int * 0x1_0000_0000 + self.to_block as int
    }
}

/// A sequence of blocks activated together.
#[derive(Debug)]
pub struct NeuralPathway {
    pub id: u64,
    pub nodes: Vec<u32>,
    /// Bit pattern of the `f32` activation strength.
    pub strength_bits: u32,
    /// Bit pattern of the `f32` efficiency.
    pub efficiency_bits: u32,
    pub usage_count: u32,
    pub specialized_for: String,
}

/// Mathematical value of a pathway.
pub struct PathwayRecord {
    pub id: u64,
    pub nodes: Seq<u32>,
    pub strength_bits: u32,
    pub efficiency_bits: u32,
    pub usage_count: u32,
    pub specialized_for: Seq<char>,
}

impl View for NeuralPathway {
    type V = PathwayRecord;

    open spec fn view(&self) -> PathwayRecord {
        PathwayRecord {
            id: self.id,
            nodes: self.nodes@,
            strength_bits: self.strength_bits,
            efficiency_bits: self.efficiency_bits,
            usage_count: self.usage_count,
            specialized_for: self.specialized_for@,
        }
    }
}

impl Keyed for PathwayRecord {
    /// A pathway is stored under its id.
    open spec fn key(&self) -> int {
        self.id as int
    }
}

/// Values of a sequence of pathways.
pub open spec fn pathway_records(v: Seq<NeuralPathway>) -> Seq<PathwayRecord> {
    v.map_values(|p: NeuralPathway| p@)
}

/// The store: synapses keyed by (from, to), pathways keyed by id, each in the
/// order its key first appeared.
pub struct Neuroplasticity {
    pub synapses: Vec<SynapticConnection>,
    pub pathways: Vec<NeuralPathway>,
    /// Bit pattern of the `f32` reorganization threshold.
    pub reorganization_threshold_bits: u32,
    pub plasticity_window_ms: u64,
}

impl Neuroplasticity {
    /// Each key occurs once.
    pub open spec fn well_formed(&self) -> bool {
        keys_unique(self.synapses@) && keys_unique(pathway_records(self.pathways@))
    }

    /// An empty store with the default threshold and window.
    pub fn new() -> (r: Self)
        ensures
            r.synapses@.len() == 0,
            r.pathways@.len() == 0,
            r.reorganization_threshold_bits == DEFAULT_THRESHOLD_BITS,
            r.plasticity_window_ms == PLASTICITY_WINDOW_MS,
            r.well_formed(),
    {
        let r = Neuroplasticity {
            synapses: Vec::new(),
            pathways: Vec::new(),
            reorganization_threshold_bits: DEFAULT_THRESHOLD_BITS,
            plasticity_window_ms: PLASTICITY_WINDOW_MS,
        };
        assert(pathway_records(r.pathways@) =~= Seq::<PathwayRecord>::empty());
        r
    }

    /// The store a file holds (a file that does not start with `NPLS` holds an
    /// empty one). Records are inserted in file order; a later record with the
    /// key of an earlier one replaces it.
    pub fn from_bytes(data: &[u8]) -> (r: Self)
        ensures
            r.synapses@ == table(npls_synapses(data@)),
            pathway_records(r.pathways@) == table(npls_pathways(data@)),
            r.reorganization_threshold_bits == DEFAULT_THRESHOLD_BITS,
            r.plasticity_window_ms == PLASTICITY_WINDOW_MS,
            r.well_formed(),
    {
        let mut np = Neuroplasticity::new();
        let len: usize = data.len();
        if len < 5 || data[0] != 0x4e || data[1] != 0x50 || data[2] != 0x4c || data[3] != 0x53 {
            proof {
                if len >= 5 {
                    assert(data@.subrange(0, 4) != npls_magic()) by {
                        if data@.subrange(0, 4) == npls_magic() {
                            assert(data@.subrange(0, 4)[0] == data@[0]);
                            assert(data@.subrange(0, 4)[1] == data@[1]);
                            assert(data@.subrange(0, 4)[2] == data@[2]);
                            assert(data@.subrange(0, 4)[3] == data@[3]);
                        }
                    }
                }
            }
            assert(np.synapses@ =~= table(Seq::<SynapticConnection>::empty()));
            assert(pathway_records(np.pathways@) =~= table(Seq::<PathwayRecord>::empty()));
            return np;
        }
        assert(data@.subrange(0, 4) =~= npls_magic());
        let mut idx: usize = 5;
        if len >= 9 {
            let count: u32 = read_u32(data, 5);
            idx = 9;
            let mut k: u32 = 0;
            let ghost all = parse_synapses(data@, 9, count as nat);
            let ghost mut done: Seq<SynapticConnection> = Seq::empty();
            assert(done + all =~= all);
            loop
                invariant
                    9 <= idx <= len,
                    len == data@.len(),
                    k <= count,
                    count == le_value(data@.subrange(5, 9)),
                    all == parse_synapses(data@, 9, count as nat),
                    all == done + parse_synapses(data@, idx as int, (count - k) as nat),
                    synapses_end(data@, 9, count as nat) == synapses_end(data@, idx as int, (count - k) as nat),
                    np.synapses@ == table(done),
                    keys_unique(np.synapses@),
                    np.pathways@.len() == 0,
                    np.reorganization_threshold_bits == DEFAULT_THRESHOLD_BITS,
                    np.plasticity_window_ms == PLASTICITY_WINDOW_MS,
                ensures
                    np.synapses@ == table(all),
                    keys_unique(np.synapses@),
                    idx == synapses_end(data@, 9, count as nat),
                    idx <= len,
                    np.pathways@.len() == 0,
                    np.reorganization_threshold_bits == DEFAULT_THRESHOLD_BITS,
                    np.plasticity_window_ms == PLASTICITY_WINDOW_MS,
                decreases count - k,
            {
                if k == count || len - idx < 36 {
                    assert(parse_synapses(data@, idx as int, (count - k) as nat) =~= Seq::<SynapticConnection>::empty());
                    assert(done + Seq::<SynapticConnection>::empty() =~= done);
                    break;
                }
                let s = read_synapse(data, idx);
                let ghost next = parse_synapses(data@, idx + 28, (count - k - 1) as nat);
                assert(parse_synapses(data@, idx as int, (count - k) as nat) == seq![s] + next);
                proof {
                    assert(done.push(s).drop_last() =~= done);
                    assert(done + (seq![s] + next) =~= done.push(s) + next);
                    done = done.push(s);
                }
                upsert_synapse(&mut np.synapses, s);
                idx = idx + 28;
                k = k + 1;
            }
        } else {
            assert(np.synapses@ =~= table(Seq::<SynapticConnection>::empty()));
        }
        proof {
            lemma_table_unique(npls_synapses(data@));
        }
        assert(np.synapses@ == table(npls_synapses(data@)));
        assert(idx == npls_pathways_start(data@));
        if len - idx >= 4 {
            let count: u32 = read_u32(data, idx);
            let start: usize = idx + 4;
            let mut p: usize = start;
            let mut k: u32 = 0;
            let ghost all = parse_pathways(data@, start as int, count as nat);
            let ghost mut done: Seq<PathwayRecord> = Seq::empty();
            assert(done + all =~= all);
            assert(pathway_records(np.pathways@) =~= table(done));
            loop
                invariant
                    start <= p <= len,
                    len == data@.len(),
                    k <= count,
                    all == parse_pathways(data@, start as int, count as nat),
                    all == done + parse_pathways(data@, p as int, (count - k) as nat),
                    pathway_records(np.pathways@) == table(done),
                    keys_unique(pathway_records(np.pathways@)),
                    np.synapses@ == table(npls_synapses(data@)),
                    keys_unique(np.synapses@),
                    np.reorganization_threshold_bits == DEFAULT_THRESHOLD_BITS,
                    np.plasticity_window_ms == PLASTICITY_WINDOW_MS,
                ensures
                    pathway_records(np.pathways@) == table(all),
                    keys_unique(pathway_records(np.pathways@)),
                    np.synapses@ == table(npls_synapses(data@)),
                    keys_unique(np.synapses@),
                    np.reorganization_threshold_bits == DEFAULT_THRESHOLD_BITS,
                    np.plasticity_window_ms == PLASTICITY_WINDOW_MS,
                decreases count - k,
            {
                if k == count {
                    assert(parse_pathways(data@, p as int, 0) =~= Seq::<PathwayRecord>::empty());
                    assert(done + Seq::<PathwayRecord>::empty() =~= done);
                    break;
                }
                match read_pathway(data, p) {
                    None => {
                        assert(parse_pathways(data@, p as int, (count - k) as nat) =~= Seq::<PathwayRecord>::empty());
                        assert(done + Seq::<PathwayRecord>::empty() =~= done);
                        break;
                    },
                    Some((pw, end)) => {
                        let ghost next = parse_pathways(data@, end as int, (count - k - 1) as nat);
                        assert(parse_pathways(data@, p as int, (count - k) as nat) == seq![pw@] + next);
                        proof {
                            assert(done.push(pw@).drop_last() =~= done);
                            assert(done + (seq![pw@] + next) =~= done.push(pw@) + next);
                            done = done.push(pw@);
                        }
                        upsert_pathway(&mut np.pathways, pw);
                        p = end;
                        k = k + 1;
                    },
                }
            }
        } else {
            assert(pathway_records(np.pathways@) =~= table(Seq::<PathwayRecord>::empty()));
        }
        proof {
            lemma_table_unique(npls_pathways(data@));
        }
        np
    }

    /// The file that holds the store. Counts are written as `u32`, a domain's
    /// byte length as `u8` and a node count as `u16`, each keeping its low bytes.
    pub fn to_bytes(&self) -> (r: Vec<u8>)
        ensures
            r@ == npls_bytes(self.synapses@, pathway_records(self.pathways@)),
    {
        let mut buf: Vec<u8> = Vec::new();
        buf.push(0x4e);
        buf.push(0x50);
        buf.push(0x4c);
        buf.push(0x53);
        buf.push(1);
        push_le(&mut buf, self.synapses.len() as u64, 4);
        let ghost ss = self.synapses@;
        let ghost s0 = buf@;
        let n: usize = self.synapses.len();
        let mut i: usize = 0;
        assert(ss.take(0) =~= Seq::<SynapticConnection>::empty());
        while i < n
            invariant
                i <= n,
                n == ss.len(),
                ss == self.synapses@,
                buf@ == s0 + syns_bytes(ss.take(i as int)),
            decreases n - i,
        {
            let s = self.synapses[i];
            let ghost before = buf@;
            write_synapse(&mut buf, &s);
            proof {
                lemma_syns_bytes_push(ss.take(i as int), s);
                assert(ss.take(i + 1) =~= ss.take(i as int).push(s));
            }
            i = i + 1;
        }
        assert(ss.take(n as int) =~= ss);
        push_le(&mut buf, self.pathways.len() as u64, 4);
        let ghost ps = pathway_records(self.pathways@);
        let ghost s1 = buf@;
        let m: usize = self.pathways.len();
        let mut j: usize = 0;
        assert(ps.take(0) =~= Seq::<PathwayRecord>::empty());
        while j < m
            invariant
                j <= m,
                m == self.pathways@.len(),
                ps == pathway_records(self.pathways@),
                buf@ == s1 + paths_bytes(ps.take(j as int)),
            decreases m - j,
        {
            write_pathway(&mut buf, &self.pathways[j]);
            proof {
                lemma_paths_bytes_push(ps.take(j as int), ps[j as int]);
                assert(ps.take(j + 1) =~= ps.take(j as int).push(ps[j as int]));
            }
            j = j + 1;
        }
        assert(ps.take(m as int) =~= ps);
        assert(buf@ =~= npls_bytes(self.synapses@, pathway_records(self.pathways@)));
        buf
    }
}

// ─── Reading ─────────────────────────────────────────

/// The file header.
pub open spec fn npls_magic() -> Seq<u8> {
    seq![0x4eu8, 0x50u8, 0x4cu8, 0x53u8]
}

/// The synapse whose 28 bytes start at `p`.
pub open spec fn synapse_at(d: Seq<u8>, p: int) -> SynapticConnection {
    SynapticConnection {
        from_block: u32_at(d, p),
        to_block: u32_at(d, p + 4),
        weight_bits: u32_at(d, p + 8),
        frequency: u32_at(d, p + 12),
        last_activated_ms: u64_at(d, p + 16),
        plasticity_bits: u32_at(d, p + 24),
    }
}

/// Up to `count` synapses from `p`: a synapse is read only while at least 36
/// bytes remain at its start.
pub open spec fn parse_synapses(d: Seq<u8>, p: int, count: nat) -> Seq<SynapticConnection>
    decreases count,
{
    if count == 0 || p + 36 > d.len() {
        Seq::empty()
    } else {
        seq![synapse_at(d, p)] + parse_synapses(d, p + 28, (count - 1) as nat)
    }
}

/// Where reading those synapses stops.
pub open spec fn synapses_end(d: Seq<u8>, p: int, count: nat) -> int
    decreases count,
{
    if count == 0 || p + 36 > d.len() {
        p
    } else {
        synapses_end(d, p + 28, (count - 1) as nat)
    }
}

/// Up to `count` node ids from `p`, while four bytes remain.
pub open spec fn parse_nodes(d: Seq<u8>, p: int, count: nat) -> Seq<u32>
    decreases count,
{
    if count == 0 || p + 4 > d.len() {
        Seq::empty()
    } else {
        seq![u32_at(d, p)] + parse_nodes(d, p + 4, (count - 1) as nat)
    }
}

/// Where reading those nodes stops.
pub open spec fn nodes_end(d: Seq<u8>, p: int, count: nat) -> int
    decreases count,
{
    if count == 0 || p + 4 > d.len() {
        p
    } else {
        nodes_end(d, p + 4, (count - 1) as nat)
    }
}

/// Byte length of the domain of the pathway at `p`.
pub open spec fn domain_len_at(d: Seq<u8>, p: int) -> int {
    d[p + 20] as int
}

/// A pathway is read at `p` when 30 bytes remain there and its domain and
/// node count fit.
pub open spec fn pathway_ok(d: Seq<u8>, p: int) -> bool {
    p + 30 <= d.len() && p + 23 + domain_len_at(d, p) <= d.len()
}

/// The pathway at `p`; its nodes are read while they fit.
pub open spec fn pathway_at(d: Seq<u8>, p: int) -> PathwayRecord {
    let l = domain_len_at(d, p);
    PathwayRecord {
        id: u64_at(d, p),
        strength_bits: u32_at(d, p + 8),
        efficiency_bits: u32_at(d, p + 12),
        usage_count: u32_at(d, p + 16),
        specialized_for: lossy_text(d.subrange(p + 21, p + 21 + l)),
        nodes: parse_nodes(d, p + 23 + l, le_value(d.subrange(p + 21 + l, p + 23 + l))),
    }
}

/// Where the pathway at `p` ends.
pub open spec fn pathway_end(d: Seq<u8>, p: int) -> int {
    let l = domain_len_at(d, p);
    nodes_end(d, p + 23 + l, le_value(d.subrange(p + 21 + l, p + 23 + l)))
}

/// Up to `count` pathways from `p`, until one is not read.
pub open spec fn parse_pathways(d: Seq<u8>, p: int, count: nat) -> Seq<PathwayRecord>
    decreases count,
{
    if count == 0 || !pathway_ok(d, p) {
        Seq::empty()
    } else {
        seq![pathway_at(d, p)] + parse_pathways(d, pathway_end(d, p), (count - 1) as nat)
    }
}

/// The file starts with the header and a version byte.
pub open spec fn npls_header_ok(d: Seq<u8>) -> bool {
    d.len() >= 5 && d.subrange(0, 4) == npls_magic()
}

/// The synapse records of a file, in file order.
pub open spec fn npls_synapses(d: Seq<u8>) -> Seq<SynapticConnection> {
    if !npls_header_ok(d) || d.len() < 9 {
        Seq::empty()
    } else {
        parse_synapses(d, 9, le_value(d.subrange(5, 9)))
    }
}

/// Where the pathway section of a file starts (its count field).
pub open spec fn npls_pathways_start(d: Seq<u8>) -> int {
    if d.len() < 9 {
        5
    } else {
        synapses_end(d, 9, le_value(d.subrange(5, 9)))
    }
}

/// The pathway records of a file, in file order.
pub open spec fn npls_pathways(d: Seq<u8>) -> Seq<PathwayRecord> {
    let p = npls_pathways_start(d);
    if !npls_header_ok(d) || p + 4 > d.len() {
        Seq::empty()
    } else {
        parse_pathways(d, p + 4, le_value(d.subrange(p, p + 4)))
    }
}

proof fn lemma_synapses_end_bound(d: Seq<u8>, p: int, count: nat)
    requires
        p <= d.len(),
    ensures
        p <= synapses_end(d, p, count) <= d.len(),
    decreases count,
{
    if count > 0 && p + 36 <= d.len() {
        lemma_synapses_end_bound(d, p + 28, (count - 1) as nat);
    }
}

proof fn lemma_nodes_end_bound(d: Seq<u8>, p: int, count: nat)
    requires
        p <= d.len(),
    ensures
        p <= nodes_end(d, p, count) <= d.len(),
    decreases count,
{
    if count > 0 && p + 4 <= d.len() {
        lemma_nodes_end_bound(d, p + 4, (count - 1) as nat);
    }
}

/// Reads the synapse at `idx`.
fn read_synapse(data: &[u8], idx: usize) -> (s: SynapticConnection)
    requires
        idx + 28 <= data@.len(),
    ensures
        s == synapse_at(data@, idx as int),
{
    let len: usize = data.len();
    assert(idx + 28 <= len);
    SynapticConnection {
        from_block: read_u32(data, idx),
        to_block: read_u32(data, idx + 4),
        weight_bits: read_u32(data, idx + 8),
        frequency: read_u32(data, idx + 12),
        last_activated_ms: read_le(data, idx + 16, 8),
        plasticity_bits: read_u32(data, idx + 24),
    }
}

/// Reads the pathway at `p` with the end of its bytes, or nothing when it is
/// not read.
fn read_pathway(data: &[u8], p: usize) -> (r: Option<(NeuralPathway, usize)>)
    requires
        p <= data@.len(),
    ensures
        r is None <==> !pathway_ok(data@, p as int),
        r matches Some((pw, e)) ==> pw@ == pathway_at(data@, p as int) && e as int == pathway_end(
            data@,
            p as int,
        ) && p <= e <= data@.len(),
{
    let len: usize = data.len();
    if len - p < 30 {
        return None;
    }
    let l: usize = data[p + 20] as usize;
    if len - p - 23 < l {
        return None;
    }
    let id: u64 = read_le(data, p, 8);
    let strength_bits: u32 = read_u32(data, p + 8);
    let efficiency_bits: u32 = read_u32(data, p + 12);
    let usage_count: u32 = read_u32(data, p + 16);
    let specialized_for = lossy_string(vstd::slice::slice_subrange(data, p + 21, p + 21 + l));
    let n: u16 = read_u16(data, p + 21 + l);
    let q0: usize = p + 23 + l;
    let mut q: usize = q0;
    let mut k: u16 = 0;
    let mut nodes: Vec<u32> = Vec::new();
    assert(nodes@ + parse_nodes(data@, q0 as int, n as nat) =~= parse_nodes(data@, q0 as int, n as nat));
    loop
        invariant
            q0 <= q <= len,
            len == data@.len(),
            k <= n,
            parse_nodes(data@, q0 as int, n as nat) == nodes@ + parse_nodes(data@, q as int, (n - k) as nat),
            nodes_end(data@, q0 as int, n as nat) == nodes_end(data@, q as int, (n - k) as nat),
        ensures
            parse_nodes(data@, q0 as int, n as nat) == nodes@,
            nodes_end(data@, q0 as int, n as nat) == q,
            q0 <= q <= len,
        decreases n - k,
    {
        if k == n || len - q < 4 {
            assert(parse_nodes(data@, q as int, (n - k) as nat) =~= Seq::<u32>::empty());
            assert(nodes@ + Seq::<u32>::empty() =~= nodes@);
            break;
        }
        let node: u32 = read_u32(data, q);
        let ghost prev = nodes@;
        nodes.push(node);
        assert(prev + parse_nodes(data@, q as int, (n - k) as nat) =~= nodes@ + parse_nodes(
            data@,
            q + 4,
            (n - k - 1) as nat,
        ));
        q = q + 4;
        k = k + 1;
    }
    let pw = NeuralPathway { id, nodes, strength_bits, efficiency_bits, usage_count, specialized_for };
    Some((pw, q))
}

/// Stores a synapse under its key.
fn upsert_synapse(v: &mut Vec<SynapticConnection>, s: SynapticConnection)
    requires
        keys_unique(old(v)@),
    ensures
        final(v)@ == upsert(old(v)@, s),
        keys_unique(final(v)@),
{
    proof {
        lemma_upsert_unique(old(v)@, s);
    }
    let n: usize = v.len();
    let mut i: usize = 0;
    while i < n
        invariant
            i <= n,
            n == v@.len(),
            v@ == old(v)@,
            keys_unique(v@),
            forall|j: int| 0 <= j < i ==> (#[trigger] v@[j]).key() != s.key(),
        decreases n - i,
    {
        if v[i].from_block == s.from_block && v[i].to_block == s.to_block {
            let ghost c = choose|j: int| 0 <= j < v@.len() && #[trigger] v@[j].key() == s.key();
            assert(v@[i as int].key() == s.key());
            assert(c == i);
            v.set(i, s);
            return;
        }
        proof {
            lemma_key_injective(v@[i as int], s);
        }
        i = i + 1;
    }
    assert(!has_key(old(v)@, s.key()));
    v.push(s);
}

proof fn lemma_key_injective(a: SynapticConnection, b: SynapticConnection)
    ensures
        a.key() == b.key() <==> (a.from_block == b.from_block && a.to_block == b.to_block),
{
}

/// Stores a pathway under its id.
fn upsert_pathway(v: &mut Vec<NeuralPathway>, p: NeuralPathway)
    requires
        keys_unique(pathway_records(old(v)@)),
    ensures
        pathway_records(final(v)@) == upsert(pathway_records(old(v)@), p@),
        keys_unique(pathway_records(final(v)@)),
{
    let ghost old_recs = pathway_records(old(v)@);
    proof {
        lemma_upsert_unique(old_recs, p@);
    }
    let n: usize = v.len();
    let mut i: usize = 0;
    while i < n
        invariant
            i <= n,
            n == v@.len(),
            v@ == old(v)@,
            old_recs == pathway_records(old(v)@),
            keys_unique(old_recs),
            forall|j: int| 0 <= j < i ==> (#[trigger] old_recs[j]).key() != p@.key(),
        decreases n - i,
    {
        if v[i].id == p.id {
            let ghost c = choose|j: int| 0 <= j < old_recs.len() && #[trigger] old_recs[j].key() == p@.key();
            assert(old_recs[i as int].key() == p@.key());
            assert(c == i);
            let ghost pv = p@;
            v.set(i, p);
            assert(pathway_records(v@) =~= old_recs.update(i as int, pv));
            return;
        }
        assert(old_recs[i as int] == v@[i as int]@);
        i = i + 1;
    }
    assert(!has_key(old_recs, p@.key()));
    let ghost pv = p@;
    v.push(p);
    assert(pathway_records(v@) =~= old_recs.push(pv));
}

// ─── Writing ─────────────────────────────────────────

/// The 28 bytes of a synapse.
pub open spec fn syn_bytes(s: SynapticConnection) -> Seq<u8> {
    le_bytes(s.from_block as nat, 4) + le_bytes(s.to_block as nat, 4) + le_bytes(s.weight_bits as nat, 4)
        + le_bytes(s.frequency as nat, 4) + le_bytes(s.last_activated_ms as nat, 8) + le_bytes(
        s.plasticity_bits as nat,
        4,
    )
}

/// Synapses written one after another.
pub open spec fn syns_bytes(ss: Seq<SynapticConnection>) -> Seq<u8>
    decreases ss.len(),
{
    if ss.len() == 0 {
        Seq::empty()
    } else {
        syn_bytes(ss[0]) + syns_bytes(ss.drop_first())
    }
}

/// Node ids written one after another.
pub open spec fn nodes_bytes(ns: Seq<u32>) -> Seq<u8>
    decreases ns.len(),
{
    if ns.len() == 0 {
        Seq::empty()
    } else {
        le_bytes(ns[0] as nat, 4) + nodes_bytes(ns.drop_first())
    }
}

/// The bytes of a pathway before its nodes.
pub open spec fn path_head(p: PathwayRecord) -> Seq<u8> {
    le_bytes(p.id as nat, 8) + le_bytes(p.strength_bits as nat, 4) + le_bytes(p.efficiency_bits as nat, 4)
        + le_bytes(p.usage_count as nat, 4) + le_bytes(encode_utf8(p.specialized_for).len(), 1)
        + encode_utf8(p.specialized_for) + le_bytes(p.nodes.len(), 2)
}

/// The bytes of a pathway.
pub open spec fn path_bytes(p: PathwayRecord) -> Seq<u8> {
    path_head(p) + nodes_bytes(p.nodes)
}

/// Pathways written one after another.
pub open spec fn paths_bytes(ps: Seq<PathwayRecord>) -> Seq<u8>
    decreases ps.len(),
{
    if ps.len() == 0 {
        Seq::empty()
    } else {
        path_bytes(ps[0]) + paths_bytes(ps.drop_first())
    }
}

/// The file of a store with these synapses and pathways.
pub open spec fn npls_bytes(ss: Seq<SynapticConnection>, ps: Seq<PathwayRecord>) -> Seq<u8> {
    npls_magic() + seq![1u8] + le_bytes(ss.len(), 4) + syns_bytes(ss) + le_bytes(ps.len(), 4)
        + paths_bytes(ps)
}

proof fn lemma_syns_bytes_push(ss: Seq<SynapticConnection>, s: SynapticConnection)
    ensures
        syns_bytes(ss.push(s)) == syns_bytes(ss) + syn_bytes(s),
    decreases ss.len(),
{
    if ss.len() == 0 {
        assert(ss.push(s).drop_first() =~= ss);
        assert(syns_bytes(ss.push(s)) =~= syn_bytes(s) + syns_bytes(ss));
        assert(syns_bytes(ss) =~= Seq::<u8>::empty());
        assert(syns_bytes(ss.push(s)) =~= syns_bytes(ss) + syn_bytes(s));
    } else {
        lemma_syns_bytes_push(ss.drop_first(), s);
        assert(ss.push(s).drop_first() =~= ss.drop_first().push(s));
        assert(syns_bytes(ss.push(s)) =~= syn_bytes(ss[0]) + (syns_bytes(ss.drop_first()) + syn_bytes(s)));
    }
}

proof fn lemma_nodes_bytes_push(ns: Seq<u32>, n: u32)
    ensures
        nodes_bytes(ns.push(n)) == nodes_bytes(ns) + le_bytes(n as nat, 4),
    decreases ns.len(),
{
    if ns.len() == 0 {
        assert(ns.push(n).drop_first() =~= ns);
        assert(nodes_bytes(ns) =~= Seq::<u8>::empty());
        assert(nodes_bytes(ns.push(n)) =~= nodes_bytes(ns) + le_bytes(n as nat, 4));
    } else {
        lemma_nodes_bytes_push(ns.drop_first(), n);
        assert(ns.push(n).drop_first() =~= ns.drop_first().push(n));
        assert(nodes_bytes(ns.push(n)) =~= le_bytes(ns[0] as nat, 4) + (nodes_bytes(ns.drop_first())
            + le_bytes(n as nat, 4)));
    }
}

proof fn lemma_paths_bytes_push(ps: Seq<PathwayRecord>, p: PathwayRecord)
    ensures
        paths_bytes(ps.push(p)) == paths_bytes(ps) + path_bytes(p),
    decreases ps.len(),
{
    if ps.len() == 0 {
        assert(ps.push(p).drop_first() =~= ps);
        assert(paths_bytes(ps) =~= Seq::<u8>::empty());
        assert(paths_bytes(ps.push(p)) =~= paths_bytes(ps) + path_bytes(p));
    } else {
        lemma_paths_bytes_push(ps.drop_first(), p);
        assert(ps.push(p).drop_first() =~= ps.drop_first().push(p));
        assert(paths_bytes(ps.push(p)) =~= path_bytes(ps[0]) + (paths_bytes(ps.drop_first())
            + path_bytes(p)));
    }
}

fn write_synapse(buf: &mut Vec<u8>, s: &SynapticConnection)
    ensures
        final(buf)@ == old(buf)@ + syn_bytes(*s),
{
    let ghost b0 = buf@;
    push_le(buf, s.from_block as u64, 4);
    push_le(buf, s.to_block as u64, 4);
    push_le(buf, s.weight_bits as u64, 4);
    push_le(buf, s.frequency as u64, 4);
    push_le(buf, s.last_activated_ms, 8);
    push_le(buf, s.plasticity_bits as u64, 4);
    assert(buf@ =~= b0 + syn_bytes(*s));
}

fn write_pathway(buf: &mut Vec<u8>, p: &NeuralPathway)
    ensures
        final(buf)@ == old(buf)@ + path_bytes(p@),
{
    let ghost b0 = buf@;
    push_le(buf, p.id, 8);
    push_le(buf, p.strength_bits as u64, 4);
    push_le(buf, p.efficiency_bits as u64, 4);
    push_le(buf, p.usage_count as u64, 4);
    let bytes: &[u8] = p.specialized_for.as_str().as_bytes();
    let l: usize = bytes.len();
    push_le(buf, l as u64, 1);
    let ghost b1 = buf@;
    let mut i: usize = 0;
    while i < l
        invariant
            i <= l,
            l == bytes@.len(),
            buf@ == b1 + bytes@.take(i as int),
        decreases l - i,
    {
        buf.push(bytes[i]);
        assert(bytes@.take(i + 1) =~= bytes@.take(i as int).push(bytes@[i as int]));
        i = i + 1;
    }
    assert(bytes@.take(l as int) =~= bytes@);
    let n: usize = p.nodes.len();
    push_le(buf, n as u64, 2);
    let ghost b2 = buf@;
    let ghost ns = p.nodes@;
    let mut j: usize = 0;
    assert(ns.take(0) =~= Seq::<u32>::empty());
    while j < n
        invariant
            j <= n,
            n == ns.len(),
            ns == p.nodes@,
            buf@ == b2 + nodes_bytes(ns.take(j as int)),
        decreases n - j,
    {
        push_le(buf, p.nodes[j] as u64, 4);
        proof {
            lemma_nodes_bytes_push(ns.take(j as int), ns[j as int]);
            assert(ns.take(j + 1) =~= ns.take(j as int).push(ns[j as int]));
        }
        j = j + 1;
    }
    assert(ns.take(n as int) =~= ns);
    assert(buf@ =~= b0 + path_bytes(p@));
}

// ─── Reading back what was written ──────────────────

/// A written synapse reads back as itself.
proof fn lemma_synapse_roundtrip(pre: Seq<u8>, s: SynapticConnection, post: Seq<u8>)
    ensures
        syn_bytes(s).len() == 28,
        synapse_at(pre + syn_bytes(s) + post, pre.len() as int) == s,
{
    let x = syn_bytes(s);
    lemma_le_bytes_len(s.from_block as nat, 4);
    lemma_le_bytes_len(s.to_block as nat, 4);
    lemma_le_bytes_len(s.weight_bits as nat, 4);
    lemma_le_bytes_len(s.frequency as nat, 4);
    lemma_le_bytes_len(s.last_activated_ms as nat, 8);
    lemma_le_bytes_len(s.plasticity_bits as nat, 4);
    assert(x.subrange(0, 4) =~= le_bytes(s.from_block as nat, 4));
    assert(x.subrange(4, 8) =~= le_bytes(s.to_block as nat, 4));
    assert(x.subrange(8, 12) =~= le_bytes(s.weight_bits as nat, 4));
    assert(x.subrange(12, 16) =~= le_bytes(s.frequency as nat, 4));
    assert(x.subrange(16, 24) =~= le_bytes(s.last_activated_ms as nat, 8));
    assert(x.subrange(24, 28) =~= le_bytes(s.plasticity_bits as nat, 4));
    lemma_u32_field(pre, x, post, 0, s.from_block as nat);
    lemma_u32_field(pre, x, post, 4, s.to_block as nat);
    lemma_u32_field(pre, x, post, 8, s.weight_bits as nat);
    lemma_u32_field(pre, x, post, 12, s.frequency as nat);
    lemma_u64_field(pre, x, post, 16, s.last_activated_ms as nat);
    lemma_u32_field(pre, x, post, 24, s.plasticity_bits as nat);
}

/// Written synapses read back as themselves when at least 8 bytes follow them.
proof fn lemma_parse_synapses(pre: Seq<u8>, ss: Seq<SynapticConnection>, post: Seq<u8>)
    requires
        ss.len() == 0 || post.len() >= 8,
    ensures
        syns_bytes(ss).len() == 28 * ss.len(),
        parse_synapses(pre + syns_bytes(ss) + post, pre.len() as int, ss.len()) == ss,
        synapses_end(pre + syns_bytes(ss) + post, pre.len() as int, ss.len()) == pre.len()
            + syns_bytes(ss).len(),
    decreases ss.len(),
{
    let d = pre + syns_bytes(ss) + post;
    if ss.len() == 0 {
        assert(syns_bytes(ss) =~= Seq::<u8>::empty());
    } else {
        let s = ss[0];
        let rest = ss.drop_first();
        lemma_synapse_roundtrip(pre, s, syns_bytes(rest) + post);
        assert(d =~= pre + syn_bytes(s) + (syns_bytes(rest) + post));
        lemma_parse_synapses(pre + syn_bytes(s), rest, post);
        assert(d =~= (pre + syn_bytes(s)) + syns_bytes(rest) + post);
        assert(seq![s] + rest =~= ss);
    }
}

/// Written node ids read back as themselves.
proof fn lemma_parse_nodes(pre: Seq<u8>, ns: Seq<u32>, post: Seq<u8>)
    ensures
        nodes_bytes(ns).len() == 4 * ns.len(),
        parse_nodes(pre + nodes_bytes(ns) + post, pre.len() as int, ns.len()) == ns,
        nodes_end(pre + nodes_bytes(ns) + post, pre.len() as int, ns.len()) == pre.len()
            + nodes_bytes(ns).len(),
    decreases ns.len(),
{
    let d = pre + nodes_bytes(ns) + post;
    if ns.len() == 0 {
        assert(nodes_bytes(ns) =~= Seq::<u8>::empty());
    } else {
        let x = ns[0];
        let rest = ns.drop_first();
        let b = le_bytes(x as nat, 4);
        lemma_le_bytes_len(x as nat, 4);
        assert(b.subrange(0, 4) =~= b);
        lemma_u32_field(pre, b, nodes_bytes(rest) + post, 0, x as nat);
        assert(d =~= pre + b + (nodes_bytes(rest) + post));
        lemma_parse_nodes(pre + b, rest, post);
        assert(d =~= (pre + b) + nodes_bytes(rest) + post);
        assert(seq![x] + rest =~= ns);
    }
}

/// A pathway is written whole: its domain fits in 255 bytes and its node
/// count in 16 bits.
pub open spec fn path_fits(p: PathwayRecord) -> bool {
    encode_utf8(p.specialized_for).len() < 256 && p.nodes.len() < 0x1_0000
}

proof fn lemma_nodes_bytes_len(ns: Seq<u32>)
    ensures
        nodes_bytes(ns).len() == 4 * ns.len(),
    decreases ns.len(),
{
    if ns.len() > 0 {
        lemma_le_bytes_len(ns[0] as nat, 4);
        lemma_nodes_bytes_len(ns.drop_first());
    }
}

proof fn lemma_path_bytes_len(p: PathwayRecord)
    ensures
        path_head(p).len() == 23 + encode_utf8(p.specialized_for).len(),
        path_bytes(p).len() == 23 + encode_utf8(p.specialized_for).len() + 4 * p.nodes.len(),
{
    lemma_le_bytes_len(p.id as nat, 8);
    lemma_le_bytes_len(p.strength_bits as nat, 4);
    lemma_le_bytes_len(p.efficiency_bits as nat, 4);
    lemma_le_bytes_len(p.usage_count as nat, 4);
    lemma_le_bytes_len(encode_utf8(p.specialized_for).len(), 1);
    lemma_le_bytes_len(p.nodes.len(), 2);
    lemma_nodes_bytes_len(p.nodes);
}

/// A written pathway reads back as itself when 30 bytes are there at its start.
proof fn lemma_pathway_roundtrip(pre: Seq<u8>, p: PathwayRecord, post: Seq<u8>)
    requires
        path_fits(p),
        path_bytes(p).len() + post.len() >= 30,
    ensures
        path_bytes(p).len() == 23 + encode_utf8(p.specialized_for).len() + 4 * p.nodes.len(),
        pathway_ok(pre + path_bytes(p) + post, pre.len() as int),
        pathway_at(pre + path_bytes(p) + post, pre.len() as int) == p,
        pathway_end(pre + path_bytes(p) + post, pre.len() as int) == pre.len() + path_bytes(p).len(),
{
    broadcast use encode_utf8_valid_utf8, encode_utf8_decode_utf8;

    let t = encode_utf8(p.specialized_for);
    let l: int = t.len() as int;
    let n = p.nodes.len();
    let h = path_head(p);
    let x = path_bytes(p);
    let d = pre + x + post;
    let at = pre.len() as int;
    lemma_pow256_values();
    lemma_le_bytes_len(p.id as nat, 8);
    lemma_le_bytes_len(p.strength_bits as nat, 4);
    lemma_le_bytes_len(p.efficiency_bits as nat, 4);
    lemma_le_bytes_len(p.usage_count as nat, 4);
    lemma_le_bytes_len(t.len(), 1);
    lemma_le_bytes_len(n, 2);
    lemma_parse_nodes(pre + h, p.nodes, post);
    assert(h.len() == 23 + l);
    assert(x.subrange(0, 8) =~= le_bytes(p.id as nat, 8));
    assert(x.subrange(8, 12) =~= le_bytes(p.strength_bits as nat, 4));
    assert(x.subrange(12, 16) =~= le_bytes(p.efficiency_bits as nat, 4));
    assert(x.subrange(16, 20) =~= le_bytes(p.usage_count as nat, 4));
    lemma_u64_field(pre, x, post, 0, p.id as nat);
    lemma_u32_field(pre, x, post, 8, p.strength_bits as nat);
    lemma_u32_field(pre, x, post, 12, p.efficiency_bits as nat);
    lemma_u32_field(pre, x, post, 16, p.usage_count as nat);
    // the domain length byte
    lemma_le_value_of_bytes(t.len(), 1);
    assert(x.subrange(20, 21) =~= le_bytes(t.len(), 1));
    lemma_sub(pre, x, post, 20, 21);
    assert(d[at + 20] == d.subrange(at + 20, at + 21)[0]);
    assert(le_value(le_bytes(t.len(), 1)) == le_bytes(t.len(), 1)[0] as nat) by {
        let b = le_bytes(t.len(), 1);
        assert(le_value(b.drop_first()) == 0) by {
            assert(b.drop_first().len() == 0);
        }
    }
    assert(domain_len_at(d, at) == l);
    // the domain and the node count
    assert(x.subrange(21, 21 + l) =~= t);
    lemma_sub(pre, x, post, 21, 21 + l);
    assert(x.subrange(21 + l, 23 + l) =~= le_bytes(n, 2));
    lemma_sub(pre, x, post, 21 + l, 23 + l);
    lemma_le_value_of_bytes(n, 2);
    // the nodes
    assert(d =~= (pre + h) + nodes_bytes(p.nodes) + post);
    let r = pathway_at(d, at);
    assert(r.specialized_for == p.specialized_for);
    assert(r.nodes == p.nodes);
    assert(r == p);
}

/// Written pathways read back as themselves when the last one has 30 bytes at
/// its start.
#[verifier::spinoff_prover]
#[verifier::rlimit(40)]
proof fn lemma_parse_pathways(pre: Seq<u8>, ps: Seq<PathwayRecord>, post: Seq<u8>)
    requires
        forall|i: int| 0 <= i < ps.len() ==> path_fits(#[trigger] ps[i]),
        ps.len() == 0 || path_bytes(ps.last()).len() + post.len() >= 30,
    ensures
        parse_pathways(pre + paths_bytes(ps) + post, pre.len() as int, ps.len()) == ps,
    decreases ps.len(),
{
    let d = pre + paths_bytes(ps) + post;
    if ps.len() == 0 {
        assert(parse_pathways(d, pre.len() as int, 0) =~= ps);
    } else {
        let p = ps[0];
        let rest = ps.drop_first();
        assert(path_fits(ps[0]));
        assert forall|i: int| 0 <= i < rest.len() implies path_fits(#[trigger] rest[i]) by {
            assert(rest[i] == ps[i + 1]);
        }
        if rest.len() > 0 {
            assert(rest.last() == ps.last());
            lemma_path_bytes_len(rest[0]);
            assert(paths_bytes(rest) == path_bytes(rest[0]) + paths_bytes(rest.drop_first()));
            assert(paths_bytes(rest).len() >= 23);
        } else {
            assert(ps.last() == p);
        }
        lemma_pathway_roundtrip(pre, p, paths_bytes(rest) + post);
        assert(d =~= pre + path_bytes(p) + (paths_bytes(rest) + post));
        lemma_parse_pathways(pre + path_bytes(p), rest, post);
        assert(d =~= (pre + path_bytes(p)) + paths_bytes(rest) + post);
        assert(seq![p] + rest =~= ps);
    }
}

/// Law: a store saved to bytes loads back as the same store (same synapses and
/// pathways, in the same order), when every pathway is written whole and the
/// reader's look-ahead is met: a last synapse needs a pathway after it, and
/// the last pathway needs at least 30 bytes.
pub proof fn lemma_npls_roundtrip(ss: Seq<SynapticConnection>, ps: Seq<PathwayRecord>)
    requires
        keys_unique(ss),
        keys_unique(ps),
        ss.len() < 0x1_0000_0000,
        ps.len() < 0x1_0000_0000,
        forall|i: int| 0 <= i < ps.len() ==> path_fits(#[trigger] ps[i]),
        ss.len() == 0 || ps.len() > 0,
        ps.len() == 0 || path_bytes(ps.last()).len() >= 30,
    ensures
        table(npls_synapses(npls_bytes(ss, ps))) == ss,
        table(npls_pathways(npls_bytes(ss, ps))) == ps,
{
    let d = npls_bytes(ss, ps);
    let head = npls_magic() + seq![1u8];
    let c1 = le_bytes(ss.len(), 4);
    let c2 = le_bytes(ps.len(), 4);
    lemma_pow256_values();
    lemma_le_bytes_len(ss.len(), 4);
    lemma_le_bytes_len(ps.len(), 4);
    lemma_le_value_of_bytes(ss.len(), 4);
    lemma_le_value_of_bytes(ps.len(), 4);
    assert(d.subrange(0, 4) =~= npls_magic());
    assert(d.subrange(5, 9) =~= c1);
    // synapses
    let post = c2 + paths_bytes(ps);
    if ps.len() > 0 {
        lemma_path_bytes_len(ps[0]);
        assert(paths_bytes(ps) == path_bytes(ps[0]) + paths_bytes(ps.drop_first()));
    }
    lemma_parse_synapses(head + c1, ss, post);
    assert(d =~= (head + c1) + syns_bytes(ss) + post);
    assert(npls_synapses(d) == ss);
    // pathways
    let q: int = 9 + syns_bytes(ss).len() as int;
    assert(npls_pathways_start(d) == q);
    assert(d.subrange(q, q + 4) =~= c2);
    if ps.len() > 0 {
        assert(path_bytes(ps.last()).len() + Seq::<u8>::empty().len() >= 30);
    }
    lemma_parse_pathways(head + c1 + syns_bytes(ss) + c2, ps, Seq::empty());
    assert(d =~= (head + c1 + syns_bytes(ss) + c2) + paths_bytes(ps) + Seq::<u8>::empty());
    assert(npls_pathways(d) == ps);
    lemma_table_of_unique(ss);
    lemma_table_of_unique(ps);
}

/// Law: saving a well-formed store and loading the bytes gives back its
/// synapses and pathways, under the conditions of `lemma_npls_roundtrip`.
pub proof fn lemma_store_roundtrip(np: &Neuroplasticity)
    requires
        np.well_formed(),
        np.synapses@.len() < 0x1_0000_0000,
        np.pathways@.len() < 0x1_0000_0000,
        forall|i: int| 0 <= i < np.pathways@.len() ==> path_fits(#[trigger] np.pathways@[i]@),
        np.synapses@.len() == 0 || np.pathways@.len() > 0,
        np.pathways@.len() == 0 || path_bytes(np.pathways@.last()@).len() >= 30,
    ensures
        table(npls_synapses(npls_bytes(np.synapses@, pathway_records(np.pathways@)))) == np.synapses@,
        table(npls_pathways(npls_bytes(np.synapses@, pathway_records(np.pathways@)))) == pathway_records(
            np.pathways@,
        ),
{
    let ps = pathway_records(np.pathways@);
    assert forall|i: int| 0 <= i < ps.len() implies path_fits(#[trigger] ps[i]) by {
        assert(ps[i] == np.pathways@[i]@);
    }
    if ps.len() > 0 {
        assert(ps.last() == np.pathways@.last()@);
    }
    lemma_npls_roundtrip(np.synapses@, ps);
}

// ─── Identity ───────────────────────────────────────

/// The hash state after mixing in the nodes of `s` in order.
pub open spec fn fnv_nodes(h: u64, s: Seq<u32>) -> u64
    decreases s.len(),
{
    if s.len() == 0 {
        h
    } else {
        fnv_nodes(fnv_step(h, s[0] as u64), s.drop_first())
    }
}

/// Id of a pathway: the hash of its first ten nodes.
pub fn pathway_hash(nodes: &[u32]) -> (r: u64)
    ensures
        r == fnv_nodes(FNV_OFFSET, if nodes@.len() < 10 { nodes@ } else { nodes@.take(10) }),
{
    let n: usize = if nodes.len() < 10 {
        nodes.len()
    } else {
        10
    };
    let ghost s = if nodes@.len() < 10 {
        nodes@
    } else {
        nodes@.take(10)
    };
    let mut h: u64 = FNV_OFFSET;
    let mut i: usize = 0;
    assert(s.skip(0) =~= s);
    while i < n
        invariant
            i <= n,
            n == s.len(),
            s == (if nodes@.len() < 10 { nodes@ } else { nodes@.take(10) }),
            fnv_nodes(FNV_OFFSET, s) == fnv_nodes(h, s.skip(i as int)),
        decreases n - i,
    {
        assert(s.skip(i as int).drop_first() =~= s.skip(i + 1));
        assert(s[i as int] == nodes@[i as int]);
        h = h.wrapping_mul(FNV_PRIME) ^ (nodes[i] as u64);
        i = i + 1;
    }
    h
}

} // verus!
