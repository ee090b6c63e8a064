//! Resonance protocol: instances share activation pulses, not raw data.
//!
//! Wire packet (`PXC1`): [u32 count] and per pulse
//!   [u64 source_id][u64 timestamp_ms][u64 query_hash][u8 layer_hint][f32 strength]
//!   [u16 n][n × (f32 x, f32 y, f32 z, f32 score)]
//! State file (`pulses.bin`, `PLS1`): [u64 instance_id][u32 outgoing][u32 incoming]
//!   [u32 field cells], the outgoing pulses, the received pulses (each followed by
//!   [u32 local_matches][u8 integrated]) and the field cells ([i16 x][i16 y][i16 z][f32 v]).
//! All numbers are little-endian; floats travel as their IEEE-754 bit patterns.
use vstd::prelude::*;
use vstd::utf8::encode_utf8;
use vstd::wrapping::u64_specs;
use crate::codec::{
    le_bytes, lemma_le_bytes_len, lemma_le_value_of_bytes, lemma_pow256_values, lemma_sub,
    lemma_u32_field, lemma_u64_field, push_le, read_le, u16_at, u32_at, u64_at,
};
use crate::keyed::{
    has_key, keys_unique, lemma_table_of_unique, lemma_table_unique, lemma_upsert_unique, table, upsert,
    Keyed,
};
use crate::multimodal::{read_u16, read_u32};

verus! {

/// FNV-style offset basis.
pub const FNV_OFFSET: u64 = 0xcbf29ce484222325;

/// FNV-style prime.
pub const FNV_PRIME: u64 = 0x100000001b3;

/// One step of the hash: multiply (wrapping), then mix the next value in by xor.
pub open spec fn fnv_step(h: u64, v: u64) -> u64 {
    u64_specs::wrapping_mul(h, FNV_PRIME) ^ v
}

/// The hash state after mixing in the bytes of `s` in order.
pub open spec fn fnv_bytes(h: u64, s: Seq<u8>) -> u64
    decreases s.len(),
{
    if s.len() == 0 {
        h
    } else {
        fnv_bytes(fnv_step(h, s[0] as u64), s.drop_first())
    }
}

/// Hash a path (given as its text) to a u64 instance id.
pub fn path_hash(path: &str) -> (r: u64)
    ensures
        r == fnv_bytes(FNV_OFFSET, encode_utf8(path@)),
{
    let bytes: &[u8] = path.as_bytes();
    let n: usize = bytes.len();
    let mut h: u64 = FNV_OFFSET;
    let mut i: usize = 0;
    assert(bytes@.skip(0) =~= bytes@);
    while i < n
        invariant
            i <= n,
            n == bytes@.len(),
            fnv_bytes(FNV_OFFSET, bytes@) == fnv_bytes(h, bytes@.skip(i as int)),
        decreases n - i,
    {
        assert(bytes@.skip(i as int).drop_first() =~= bytes@.skip(i + 1));
        h = h.wrapping_mul(FNV_PRIME) ^ (bytes[i] as u64);
        i = i + 1;
    }
    h
}


// ─── Pulses ─────────────────────────────────────────

/// A compact activation summary shared between instances.
#[derive(Debug)]
pub struct Pulse {
    /// Source instance identifier (hash of its output directory).
    pub source_id: u64,
    pub timestamp_ms: u64,
    /// Query signature hash.
    pub query_hash: u64,
    /// Activated positions: bit patterns of the `f32` values (x, y, z, score).
    pub activations: Vec<(u32, u32, u32, u32)>,
    /// Most common layer in the activation set.
    pub layer_hint: u8,
    /// Bit pattern of the `f32` average activation score.
    pub strength_bits: u32,
}

/// Mathematical value of a pulse.
pub struct PulseRecord {
    pub source_id: u64,
    pub timestamp_ms: u64,
    pub query_hash: u64,
    pub activations: Seq<(u32, u32, u32, u32)>,
    pub layer_hint: u8,
    pub strength_bits: u32,
}

impl View for Pulse {
    type V = PulseRecord;

    open spec fn view(&self) -> PulseRecord {
        PulseRecord {
            source_id: self.source_id,
            timestamp_ms: self.timestamp_ms,
            query_hash: self.query_hash,
            activations: self.activations@,
            layer_hint: self.layer_hint,
            strength_bits: self.strength_bits,
        }
    }
}

/// A pulse received from another instance.
#[derive(Debug)]
pub struct ReceivedPulse {
    pub pulse: Pulse,
    /// How many local blocks the pulse influenced.
    pub local_matches: u32,
    /// Whether it was integrated already.
    pub integrated: bool,
}

/// Mathematical value of a received pulse.
pub struct ReceivedRecord {
    pub pulse: PulseRecord,
    pub local_matches: u32,
    pub integrated: bool,
}

impl View for ReceivedPulse {
    type V = ReceivedRecord;

    open spec fn view(&self) -> ReceivedRecord {
        ReceivedRecord { pulse: self.pulse@, local_matches: self.local_matches, integrated: self.integrated }
    }
}

/// One cell of the resonance field: a quantized position and its energy.
#[derive(Clone, Copy, Debug, PartialEq, Eq)]
pub struct FieldCell {
    pub qx: i16,
    pub qy: i16,
    pub qz: i16,
    /// Bit pattern of the `f32` accumulated strength.
    pub value_bits: u32,
}

impl Keyed for FieldCell {
    /// A cell is stored under its position.
    open spec fn key(&self) -> int {
        (self.qx as int + 0x8000) * 0x1_0000_0000 + (self.qy as int + 0x8000) * 0x1_0000 + (
        self.qz as int + 0x8000)
    }
}

/// Resonance protocol state: the pulses sent and received and the field.
pub struct ResonanceState {
    pub instance_id: u64,
    pub outgoing: Vec<Pulse>,
    pub incoming: Vec<ReceivedPulse>,
    /// One cell per position, in the order positions first appeared.
    pub field: Vec<FieldCell>,
}

pub open spec fn pulse_records(v: Seq<Pulse>) -> Seq<PulseRecord> {
    v.map_values(|p: Pulse| p@)
}

pub open spec fn received_records(v: Seq<ReceivedPulse>) -> Seq<ReceivedRecord> {
    v.map_values(|r: ReceivedPulse| r@)
}

// ─── Reading ─────────────────────────────────────────

/// The activation whose 16 bytes start at `q`.
pub open spec fn act_at(d: Seq<u8>, q: int) -> (u32, u32, u32, u32) {
    (u32_at(d, q), u32_at(d, q + 4), u32_at(d, q + 8), u32_at(d, q + 12))
}

/// Up to `n` activations from `q`, while 16 bytes remain.
pub open spec fn parse_acts(d: Seq<u8>, q: int, n: nat) -> Seq<(u32, u32, u32, u32)>
    decreases n,
{
    if n == 0 || q + 16 > d.len() {
        Seq::empty()
    } else {
        seq![act_at(d, q)] + parse_acts(d, q + 16, (n - 1) as nat)
    }
}

/// Where reading those activations stops.
pub open spec fn acts_end(d: Seq<u8>, q: int, n: nat) -> int
    decreases n,
{
    if n == 0 || q + 16 > d.len() {
        q
    } else {
        acts_end(d, q + 16, (n - 1) as nat)
    }
}

/// The pulse at `p`: a 31-byte head, then its activations as far as they fit.
pub open spec fn pulse_at(d: Seq<u8>, p: int) -> PulseRecord {
    PulseRecord {
        source_id: u64_at(d, p),
        timestamp_ms: u64_at(d, p + 8),
        query_hash: u64_at(d, p + 16),
        layer_hint: d[p + 24],
        strength_bits: u32_at(d, p + 25),
        activations: parse_acts(d, p + 31, u16_at(d, p + 29) as nat),
    }
}

/// Where the pulse at `p` ends.
pub open spec fn pulse_end(d: Seq<u8>, p: int) -> int {
    acts_end(d, p + 31, u16_at(d, p + 29) as nat)
}

/// Up to `count` pulses of a wire packet from `p`: a pulse is read while 29
/// bytes remain at its start.
pub open spec fn parse_wire(d: Seq<u8>, p: int, count: nat) -> Seq<PulseRecord>
    decreases count,
{
    if count == 0 || p + 29 > d.len() {
        Seq::empty()
    } else {
        seq![pulse_at(d, p)] + parse_wire(d, pulse_end(d, p), (count - 1) as nat)
    }
}

/// Each pulse the wire reader starts has its whole 31-byte head (the reader
/// checks for 29 bytes and then reads 31).
pub open spec fn wire_safe_from(d: Seq<u8>, p: int, count: nat) -> bool
    decreases count,
{
    count == 0 || p + 29 > d.len() || (p + 31 <= d.len() && wire_safe_from(
        d,
        pulse_end(d, p),
        (count - 1) as nat,
    ))
}

pub open spec fn wire_magic() -> Seq<u8> {
    seq![0x50u8, 0x58u8, 0x43u8, 0x31u8]
}

pub open spec fn wire_header_ok(d: Seq<u8>) -> bool {
    d.len() >= 8 && d.subrange(0, 4) == wire_magic()
}

/// The pulses of a wire packet (`PXC1`, a `u32` count, the pulses).
pub open spec fn wire_pulses(d: Seq<u8>) -> Seq<PulseRecord> {
    if !wire_header_ok(d) {
        Seq::empty()
    } else {
        parse_wire(d, 8, u32_at(d, 4) as nat)
    }
}

/// A packet the wire reader can read without running past its end.
pub open spec fn wire_safe(d: Seq<u8>) -> bool {
    !wire_header_ok(d) || wire_safe_from(d, 8, u32_at(d, 4) as nat)
}

/// Up to `count` pulses of the state file from `p`, while 31 bytes remain at
/// the start of each.
pub open spec fn parse_out(d: Seq<u8>, p: int, count: nat) -> Seq<PulseRecord>
    decreases count,
{
    if count == 0 || p + 31 > d.len() {
        Seq::empty()
    } else {
        seq![pulse_at(d, p)] + parse_out(d, pulse_end(d, p), (count - 1) as nat)
    }
}

pub open spec fn out_end(d: Seq<u8>, p: int, count: nat) -> int
    decreases count,
{
    if count == 0 || p + 31 > d.len() {
        p
    } else {
        out_end(d, pulse_end(d, p), (count - 1) as nat)
    }
}

/// A received pulse is read at `p` when 36 bytes remain there and its
/// trailing five bytes fit after its activations.
pub open spec fn received_ok(d: Seq<u8>, p: int) -> bool {
    p + 36 <= d.len() && pulse_end(d, p) + 5 <= d.len()
}

pub open spec fn received_at(d: Seq<u8>, p: int) -> ReceivedRecord {
    let e = pulse_end(d, p);
    ReceivedRecord { pulse: pulse_at(d, p), local_matches: u32_at(d, e), integrated: d[e + 4] != 0 }
}

pub open spec fn parse_in(d: Seq<u8>, p: int, count: nat) -> Seq<ReceivedRecord>
    decreases count,
{
    if count == 0 || !received_ok(d, p) {
        Seq::empty()
    } else {
        seq![received_at(d, p)] + parse_in(d, pulse_end(d, p) + 5, (count - 1) as nat)
    }
}

/// Where reading received pulses stops: a pulse whose trailing bytes do not
/// fit is dropped after its activations were read.
pub open spec fn in_end(d: Seq<u8>, p: int, count: nat) -> int
    decreases count,
{
    if count == 0 || p + 36 > d.len() {
        p
    } else if pulse_end(d, p) + 5 > d.len() {
        pulse_end(d, p)
    } else {
        in_end(d, pulse_end(d, p) + 5, (count - 1) as nat)
    }
}

pub open spec fn cell_at(d: Seq<u8>, p: int) -> FieldCell {
    FieldCell {
        qx: u16_at(d, p) as i16,
        qy: u16_at(d, p + 2) as i16,
        qz: u16_at(d, p + 4) as i16,
        value_bits: u32_at(d, p + 6),
    }
}

pub open spec fn parse_field(d: Seq<u8>, p: int, count: nat) -> Seq<FieldCell>
    decreases count,
{
    if count == 0 || p + 10 > d.len() {
        Seq::empty()
    } else {
        seq![cell_at(d, p)] + parse_field(d, p + 10, (count - 1) as nat)
    }
}

pub open spec fn state_magic() -> Seq<u8> {
    seq![0x50u8, 0x4cu8, 0x53u8, 0x31u8]
}

/// The state file starts with `PLS1` and its 24-byte header.
pub open spec fn state_header_ok(d: Seq<u8>) -> bool {
    d.len() >= 24 && d.subrange(0, 4) == state_magic()
}

pub open spec fn state_out(d: Seq<u8>) -> Seq<PulseRecord> {
    parse_out(d, 24, u32_at(d, 12) as nat)
}

pub open spec fn state_in_start(d: Seq<u8>) -> int {
    out_end(d, 24, u32_at(d, 12) as nat)
}

pub open spec fn state_in(d: Seq<u8>) -> Seq<ReceivedRecord> {
    parse_in(d, state_in_start(d), u32_at(d, 16) as nat)
}

pub open spec fn state_field_start(d: Seq<u8>) -> int {
    in_end(d, state_in_start(d), u32_at(d, 16) as nat)
}

/// The field cells of a state file, in file order.
pub open spec fn state_field(d: Seq<u8>) -> Seq<FieldCell> {
    parse_field(d, state_field_start(d), u32_at(d, 20) as nat)
}

proof fn lemma_acts_end_bound(d: Seq<u8>, q: int, n: nat)
    requires
        q <= d.len(),
    ensures
        q <= acts_end(d, q, n) <= d.len(),
    decreases n,
{
    if n > 0 && q + 16 <= d.len() {
        lemma_acts_end_bound(d, q + 16, (n - 1) as nat);
    }
}

fn read_u16_at(data: &[u8], p: usize) -> (r: u16)
    requires
        p + 2 <= data@.len(),
    ensures
        r == u16_at(data@, p as int),
{
    read_u16(data, p)
}

/// Reads the pulse at `p` and where it ends.
fn read_pulse(data: &[u8], p: usize) -> (r: (Pulse, usize))
    requires
        p + 31 <= data@.len(),
    ensures
        r.0@ == pulse_at(data@, p as int),
        r.1 as int == pulse_end(data@, p as int),
        p + 31 <= r.1 <= data@.len(),
{
    let len: usize = data.len();
    let source_id: u64 = read_le(data, p, 8);
    let timestamp_ms: u64 = read_le(data, p + 8, 8);
    let query_hash: u64 = read_le(data, p + 16, 8);
    let layer_hint: u8 = data[p + 24];
    let strength_bits: u32 = read_u32(data, p + 25);
    let n: u16 = read_u16_at(data, p + 29);
    let q0: usize = p + 31;
    let mut q: usize = q0;
    let mut k: u16 = 0;
    let mut acts: Vec<(u32, u32, u32, u32)> = Vec::new();
    assert(acts@ + parse_acts(data@, q0 as int, n as nat) =~= parse_acts(data@, q0 as int, n as nat));
    loop
        invariant
            q0 <= q <= len,
            len == data@.len(),
            k <= n,
            parse_acts(data@, q0 as int, n as nat) == acts@ + parse_acts(data@, q as int, (n - k) as nat),
            acts_end(data@, q0 as int, n as nat) == acts_end(data@, q as int, (n - k) as nat),
        ensures
            parse_acts(data@, q0 as int, n as nat) == acts@,
            acts_end(data@, q0 as int, n as nat) == q,
            q0 <= q <= len,
        decreases n - k,
    {
        if k == n || len - q < 16 {
            assert(parse_acts(data@, q as int, (n - k) as nat) =~= Seq::<(u32, u32, u32, u32)>::empty());
            assert(acts@ + Seq::<(u32, u32, u32, u32)>::empty() =~= acts@);
            break;
        }
        let a = (read_u32(data, q), read_u32(data, q + 4), read_u32(data, q + 8), read_u32(data, q + 12));
        let ghost prev = acts@;
        acts.push(a);
        assert(prev + parse_acts(data@, q as int, (n - k) as nat) =~= acts@ + parse_acts(
            data@,
            q + 16,
            (n - k - 1) as nat,
        ));
        q = q + 16;
        k = k + 1;
    }
    (Pulse { source_id, timestamp_ms, query_hash, activations: acts, layer_hint, strength_bits }, q)
}

/// The pulses of a wire packet; a packet without the `PXC1` header holds none.
pub fn decode_pulses(data: &[u8]) -> (r: Vec<Pulse>)
    requires
        wire_safe(data@),
    ensures
        pulse_records(r@) == wire_pulses(data@),
{
    let len: usize = data.len();
    let mut pulses: Vec<Pulse> = Vec::new();
    if len < 8 || data[0] != 0x50 || data[1] != 0x58 || data[2] != 0x43 || data[3] != 0x31 {
        proof {
            if len >= 8 {
                assert(data@.subrange(0, 4) != wire_magic()) by {
                    if data@.subrange(0, 4) == wire_magic() {
                        assert(data@.subrange(0, 4)[0] == data@[0]);
                        assert(data@.subrange(0, 4)[1] == data@[1]);
                        assert(data@.subrange(0, 4)[2] == data@[2]);
                        assert(data@.subrange(0, 4)[3] == data@[3]);
                    }
                }
            }
        }
        assert(pulse_records(pulses@) =~= Seq::<PulseRecord>::empty());
        return pulses;
    }
    assert(data@.subrange(0, 4) =~= wire_magic());
    let count: u32 = read_u32(data, 4);
    let mut pos: usize = 8;
    let mut k: u32 = 0;
    let ghost all = parse_wire(data@, 8, count as nat);
    assert(pulse_records(pulses@) + all =~= all);
    loop
        invariant
            8 <= pos <= len,
            len == data@.len(),
            k <= count,
            all == parse_wire(data@, 8, count as nat),
            all == pulse_records(pulses@) + parse_wire(data@, pos as int, (count - k) as nat),
            wire_safe_from(data@, pos as int, (count - k) as nat),
        ensures
            pulse_records(pulses@) == all,
        decreases count - k,
    {
        if k == count || len - pos < 29 {
            assert(parse_wire(data@, pos as int, (count - k) as nat) =~= Seq::<PulseRecord>::empty());
            assert(pulse_records(pulses@) + Seq::<PulseRecord>::empty() =~= pulse_records(pulses@));
            break;
        }
        let (p, end) = read_pulse(data, pos);
        let ghost next = parse_wire(data@, end as int, (count - k - 1) as nat);
        let ghost prev = pulse_records(pulses@);
        let ghost pv = p@;
        pulses.push(p);
        assert(pulse_records(pulses@) =~= prev.push(pv));
        assert(prev + (seq![pv] + next) =~= pulse_records(pulses@) + next);
        pos = end;
        k = k + 1;
    }
    pulses
}

/// Reads a state file: its instance id, pulses and field. A file that is
/// shorter than its 24-byte header or does not start with `PLS1` holds none.
/// Field cells are inserted in file order; a later cell for the same
/// position replaces the earlier one.
pub fn load_resonance_state(data: &[u8]) -> (r: Option<ResonanceState>)
    ensures
        r is None <==> !state_header_ok(data@),
        r matches Some(st) ==> {
            &&& st.instance_id == u64_at(data@, 4)
            &&& pulse_records(st.outgoing@) == state_out(data@)
            &&& received_records(st.incoming@) == state_in(data@)
            &&& st.field@ == table(state_field(data@))
            &&& keys_unique(st.field@)
        },
{
    let len: usize = data.len();
    if len < 24 || data[0] != 0x50 || data[1] != 0x4c || data[2] != 0x53 || data[3] != 0x31 {
        proof {
            if len >= 24 {
                assert(data@.subrange(0, 4) != state_magic()) by {
                    if data@.subrange(0, 4) == state_magic() {
                        assert(data@.subrange(0, 4)[0] == data@[0]);
                        assert(data@.subrange(0, 4)[1] == data@[1]);
                        assert(data@.subrange(0, 4)[2] == data@[2]);
                        assert(data@.subrange(0, 4)[3] == data@[3]);
                    }
                }
            }
        }
        return None;
    }
    assert(data@.subrange(0, 4) =~= state_magic());
    let instance_id: u64 = read_le(data, 4, 8);
    let out_count: u32 = read_u32(data, 12);
    let in_count: u32 = read_u32(data, 16);
    let field_count: u32 = read_u32(data, 20);
    // outgoing
    let mut outgoing: Vec<Pulse> = Vec::new();
    let mut pos: usize = 24;
    let mut k: u32 = 0;
    let ghost all_out = parse_out(data@, 24, out_count as nat);
    assert(pulse_records(outgoing@) + all_out =~= all_out);
    loop
        invariant
            24 <= pos <= len,
            len == data@.len(),
            k <= out_count,
            all_out == pulse_records(outgoing@) + parse_out(data@, pos as int, (out_count - k) as nat),
            out_end(data@, 24, out_count as nat) == out_end(data@, pos as int, (out_count - k) as nat),
        ensures
            pulse_records(outgoing@) == all_out,
            pos == out_end(data@, 24, out_count as nat),
            24 <= pos <= len,
        decreases out_count - k,
    {
        if k == out_count || len - pos < 31 {
            assert(parse_out(data@, pos as int, (out_count - k) as nat) =~= Seq::<PulseRecord>::empty());
            assert(pulse_records(outgoing@) + Seq::<PulseRecord>::empty() =~= pulse_records(outgoing@));
            break;
        }
        let (p, end) = read_pulse(data, pos);
        let ghost next = parse_out(data@, end as int, (out_count - k - 1) as nat);
        let ghost prev = pulse_records(outgoing@);
        let ghost pv = p@;
        outgoing.push(p);
        assert(pulse_records(outgoing@) =~= prev.push(pv));
        assert(prev + (seq![pv] + next) =~= pulse_records(outgoing@) + next);
        pos = end;
        k = k + 1;
    }
    // incoming
    let mut incoming: Vec<ReceivedPulse> = Vec::new();
    let in_start: usize = pos;
    let mut k: u32 = 0;
    let ghost all_in = parse_in(data@, in_start as int, in_count as nat);
    assert(received_records(incoming@) + all_in =~= all_in);
    loop
        invariant
            in_start <= pos <= len,
            len == data@.len(),
            k <= in_count,
            all_in == received_records(incoming@) + parse_in(data@, pos as int, (in_count - k) as nat),
            in_end(data@, in_start as int, in_count as nat) == in_end(data@, pos as int, (in_count - k) as nat),
        ensures
            received_records(incoming@) == all_in,
            pos == in_end(data@, in_start as int, in_count as nat),
            pos <= len,
        decreases in_count - k,
    {
        if k == in_count || len - pos < 36 {
            assert(parse_in(data@, pos as int, (in_count - k) as nat) =~= Seq::<ReceivedRecord>::empty());
            assert(received_records(incoming@) + Seq::<ReceivedRecord>::empty() =~= received_records(incoming@));
            break;
        }
        let (p, end) = read_pulse(data, pos);
        if len - end < 5 {
            assert(parse_in(data@, pos as int, (in_count - k) as nat) =~= Seq::<ReceivedRecord>::empty());
            assert(received_records(incoming@) + Seq::<ReceivedRecord>::empty() =~= received_records(incoming@));
            pos = end;
            break;
        }
        let local_matches: u32 = read_u32(data, end);
        let integrated: bool = data[end + 4] != 0;
        let r = ReceivedPulse { pulse: p, local_matches, integrated };
        let ghost next = parse_in(data@, end + 5, (in_count - k - 1) as nat);
        let ghost prev = received_records(incoming@);
        let ghost rv = r@;
        assert(rv == received_at(data@, pos as int));
        incoming.push(r);
        assert(received_records(incoming@) =~= prev.push(rv));
        assert(prev + (seq![rv] + next) =~= received_records(incoming@) + next);
        pos = end + 5;
        k = k + 1;
    }
    // field
    let mut field: Vec<FieldCell> = Vec::new();
    let f_start: usize = pos;
    let mut k: u32 = 0;
    let ghost all_f = parse_field(data@, f_start as int, field_count as nat);
    let ghost mut done: Seq<FieldCell> = Seq::empty();
    assert(done + all_f =~= all_f);
    loop
        invariant
            f_start <= pos <= len,
            len == data@.len(),
            k <= field_count,
            all_f == done + parse_field(data@, pos as int, (field_count - k) as nat),
            field@ == table(done),
            keys_unique(field@),
        ensures
            field@ == table(all_f),
            keys_unique(field@),
        decreases field_count - k,
    {
        if k == field_count || len - pos < 10 {
            assert(parse_field(data@, pos as int, (field_count - k) as nat) =~= Seq::<FieldCell>::empty());
            assert(done + Seq::<FieldCell>::empty() =~= done);
            break;
        }
        let c = FieldCell {
            qx: read_u16_at(data, pos) as i16,
            qy: read_u16_at(data, pos + 2) as i16,
            qz: read_u16_at(data, pos + 4) as i16,
            value_bits: read_u32(data, pos + 6),
        };
        assert(c == cell_at(data@, pos as int));
        let ghost next = parse_field(data@, pos + 10, (field_count - k - 1) as nat);
        proof {
            assert(done.push(c).drop_last() =~= done);
            assert(done + (seq![c] + next) =~= done.push(c) + next);
            done = done.push(c);
        }
        upsert_cell(&mut field, c);
        pos = pos + 10;
        k = k + 1;
    }
    proof {
        lemma_table_unique(all_f);
    }
    Some(ResonanceState { instance_id, outgoing, incoming, field })
}

/// Stores a field cell under its position.
fn upsert_cell(v: &mut Vec<FieldCell>, c: FieldCell)
    requires
        keys_unique(old(v)@),
    ensures
        final(v)@ == upsert(old(v)@, c),
        keys_unique(final(v)@),
{
    proof {
        lemma_upsert_unique(old(v)@, c);
    }
    let n: usize = v.len();
    let mut i: usize = 0;
    while i < n
        invariant
            i <= n,
            n == v@.len(),
            v@ == old(v)@,
            keys_unique(v@),
            forall|j: int| 0 <= j < i ==> (#[trigger] v@[j]).key() != c.key(),
        decreases n - i,
    {
        let e = v[i];
        if e.qx == c.qx && e.qy == c.qy && e.qz == c.qz {
            let ghost w = choose|j: int| 0 <= j < v@.len() && #[trigger] v@[j].key() == c.key();
            assert(v@[i as int].key() == c.key());
            assert(w == i);
            v.set(i, c);
            return;
        }
        proof {
            lemma_cell_key_injective(e, c);
        }
        i = i + 1;
    }
    assert(!has_key(old(v)@, c.key()));
    v.push(c);
}

proof fn lemma_cell_key_injective(a: FieldCell, b: FieldCell)
    ensures
        a.key() == b.key() <==> (a.qx == b.qx && a.qy == b.qy && a.qz == b.qz),
{
}

// ─── Writing ─────────────────────────────────────────

pub open spec fn act_bytes(a: (u32, u32, u32, u32)) -> Seq<u8> {
    le_bytes(a.0 as nat, 4) + le_bytes(a.1 as nat, 4) + le_bytes(a.2 as nat, 4) + le_bytes(a.3 as nat, 4)
}

pub open spec fn acts_bytes(s: Seq<(u32, u32, u32, u32)>) -> Seq<u8>
    decreases s.len(),
{
    if s.len() == 0 {
        Seq::empty()
    } else {
        act_bytes(s[0]) + acts_bytes(s.drop_first())
    }
}

/// The 31-byte head of a pulse.
pub open spec fn pulse_head(p: PulseRecord) -> Seq<u8> {
    le_bytes(p.source_id as nat, 8) + le_bytes(p.timestamp_ms as nat, 8) + le_bytes(p.query_hash as nat, 8)
        + seq![p.layer_hint] + le_bytes(p.strength_bits as nat, 4) + le_bytes(p.activations.len(), 2)
}

/// The bytes of a pulse; its activation count is written as `u16`, keeping
/// the low bytes.
pub open spec fn pulse_bytes(p: PulseRecord) -> Seq<u8> {
    pulse_head(p) + acts_bytes(p.activations)
}

pub open spec fn pulses_bytes(ps: Seq<PulseRecord>) -> Seq<u8>
    decreases ps.len(),
{
    if ps.len() == 0 {
        Seq::empty()
    } else {
        pulse_bytes(ps[0]) + pulses_bytes(ps.drop_first())
    }
}

pub open spec fn received_bytes(r: ReceivedRecord) -> Seq<u8> {
    pulse_bytes(r.pulse) + le_bytes(r.local_matches as nat, 4) + seq![if r.integrated { 1u8 } else { 0u8 }]
}

pub open spec fn receiveds_bytes(rs: Seq<ReceivedRecord>) -> Seq<u8>
    decreases rs.len(),
{
    if rs.len() == 0 {
        Seq::empty()
    } else {
        received_bytes(rs[0]) + receiveds_bytes(rs.drop_first())
    }
}

pub open spec fn cell_bytes(c: FieldCell) -> Seq<u8> {
    le_bytes((c.qx as u16) as nat, 2) + le_bytes((c.qy as u16) as nat, 2) + le_bytes((c.qz as u16) as nat, 2)
        + le_bytes(c.value_bits as nat, 4)
}

pub open spec fn cells_bytes(cs: Seq<FieldCell>) -> Seq<u8>
    decreases cs.len(),
{
    if cs.len() == 0 {
        Seq::empty()
    } else {
        cell_bytes(cs[0]) + cells_bytes(cs.drop_first())
    }
}

/// A wire packet: `PXC1`, the pulse count as `u32`, the pulses.
pub open spec fn wire_bytes(ps: Seq<PulseRecord>) -> Seq<u8> {
    wire_magic() + le_bytes(ps.len(), 4) + pulses_bytes(ps)
}

/// A state file: `PLS1`, the instance id, the three counts as `u32`, then the
/// outgoing pulses, the received pulses and the field cells.
pub open spec fn state_bytes(
    id: u64,
    out: Seq<PulseRecord>,
    inc: Seq<ReceivedRecord>,
    field: Seq<FieldCell>,
) -> Seq<u8> {
    state_magic() + le_bytes(id as nat, 8) + le_bytes(out.len(), 4) + le_bytes(inc.len(), 4) + le_bytes(
        field.len(),
        4,
    ) + pulses_bytes(out) + receiveds_bytes(inc) + cells_bytes(field)
}

proof fn lemma_acts_bytes_push(s: Seq<(u32, u32, u32, u32)>, a: (u32, u32, u32, u32))
    ensures
        acts_bytes(s.push(a)) == acts_bytes(s) + act_bytes(a),
    decreases s.len(),
{
    if s.len() == 0 {
        assert(s.push(a).drop_first() =~= s);
        assert(acts_bytes(s) =~= Seq::<u8>::empty());
        assert(acts_bytes(s.push(a)) =~= acts_bytes(s) + act_bytes(a));
    } else {
        lemma_acts_bytes_push(s.drop_first(), a);
        assert(s.push(a).drop_first() =~= s.drop_first().push(a));
        assert(acts_bytes(s.push(a)) =~= act_bytes(s[0]) + (acts_bytes(s.drop_first()) + act_bytes(a)));
    }
}

proof fn lemma_pulses_bytes_push(s: Seq<PulseRecord>, p: PulseRecord)
    ensures
        pulses_bytes(s.push(p)) == pulses_bytes(s) + pulse_bytes(p),
    decreases s.len(),
{
    if s.len() == 0 {
        assert(s.push(p).drop_first() =~= s);
        assert(pulses_bytes(s) =~= Seq::<u8>::empty());
        assert(pulses_bytes(s.push(p)) =~= pulses_bytes(s) + pulse_bytes(p));
    } else {
        lemma_pulses_bytes_push(s.drop_first(), p);
        assert(s.push(p).drop_first() =~= s.drop_first().push(p));
        assert(pulses_bytes(s.push(p)) =~= pulse_bytes(s[0]) + (pulses_bytes(s.drop_first()) + pulse_bytes(p)));
    }
}

proof fn lemma_receiveds_bytes_push(s: Seq<ReceivedRecord>, r: ReceivedRecord)
    ensures
        receiveds_bytes(s.push(r)) == receiveds_bytes(s) + received_bytes(r),
    decreases s.len(),
{
    if s.len() == 0 {
        assert(s.push(r).drop_first() =~= s);
        assert(receiveds_bytes(s) =~= Seq::<u8>::empty());
        assert(receiveds_bytes(s.push(r)) =~= receiveds_bytes(s) + received_bytes(r));
    } else {
        lemma_receiveds_bytes_push(s.drop_first(), r);
        assert(s.push(r).drop_first() =~= s.drop_first().push(r));
        assert(receiveds_bytes(s.push(r)) =~= received_bytes(s[0]) + (receiveds_bytes(s.drop_first())
            + received_bytes(r)));
    }
}

proof fn lemma_cells_bytes_push(s: Seq<FieldCell>, c: FieldCell)
    ensures
        cells_bytes(s.push(c)) == cells_bytes(s) + cell_bytes(c),
    decreases s.len(),
{
    if s.len() == 0 {
        assert(s.push(c).drop_first() =~= s);
        assert(cells_bytes(s) =~= Seq::<u8>::empty());
        assert(cells_bytes(s.push(c)) =~= cells_bytes(s) + cell_bytes(c));
    } else {
        lemma_cells_bytes_push(s.drop_first(), c);
        assert(s.push(c).drop_first() =~= s.drop_first().push(c));
        assert(cells_bytes(s.push(c)) =~= cell_bytes(s[0]) + (cells_bytes(s.drop_first()) + cell_bytes(c)));
    }
}

fn write_pulse(buf: &mut Vec<u8>, p: &Pulse)
    ensures
        final(buf)@ == old(buf)@ + pulse_bytes(p@),
{
    let ghost b0 = buf@;
    push_le(buf, p.source_id, 8);
    push_le(buf, p.timestamp_ms, 8);
    push_le(buf, p.query_hash, 8);
    buf.push(p.layer_hint);
    push_le(buf, p.strength_bits as u64, 4);
    let n: usize = p.activations.len();
    push_le(buf, n as u64, 2);
    let ghost b1 = buf@;
    let ghost acts = p.activations@;
    let mut i: usize = 0;
    assert(acts.take(0) =~= Seq::<(u32, u32, u32, u32)>::empty());
    while i < n
        invariant
            i <= n,
            n == acts.len(),
            acts == p.activations@,
            buf@ == b1 + acts_bytes(acts.take(i as int)),
        decreases n - i,
    {
        let a = p.activations[i];
        push_le(buf, a.0 as u64, 4);
        push_le(buf, a.1 as u64, 4);
        push_le(buf, a.2 as u64, 4);
        push_le(buf, a.3 as u64, 4);
        proof {
            lemma_acts_bytes_push(acts.take(i as int), a);
            assert(acts.take(i + 1) =~= acts.take(i as int).push(a));
        }
        i = i + 1;
    }
    assert(acts.take(n as int) =~= acts);
    assert(buf@ =~= b0 + pulse_bytes(p@));
}

fn write_pulses(buf: &mut Vec<u8>, ps: &[Pulse])
    ensures
        final(buf)@ == old(buf)@ + pulses_bytes(pulse_records(ps@)),
{
    let ghost b0 = buf@;
    let ghost rs = pulse_records(ps@);
    let n: usize = ps.len();
    let mut i: usize = 0;
    assert(rs.take(0) =~= Seq::<PulseRecord>::empty());
    while i < n
        invariant
            i <= n,
            n == ps@.len(),
            rs == pulse_records(ps@),
            buf@ == b0 + pulses_bytes(rs.take(i as int)),
        decreases n - i,
    {
        write_pulse(buf, &ps[i]);
        proof {
            lemma_pulses_bytes_push(rs.take(i as int), rs[i as int]);
            assert(rs.take(i + 1) =~= rs.take(i as int).push(rs[i as int]));
        }
        i = i + 1;
    }
    assert(rs.take(n as int) =~= rs);
}

/// A wire packet holding `pulses`.
pub fn encode_pulses(pulses: &[Pulse]) -> (r: Vec<u8>)
    ensures
        r@ == wire_bytes(pulse_records(pulses@)),
{
    let mut buf: Vec<u8> = Vec::new();
    buf.push(0x50);
    buf.push(0x58);
    buf.push(0x43);
    buf.push(0x31);
    push_le(&mut buf, pulses.len() as u64, 4);
    write_pulses(&mut buf, pulses);
    assert(pulse_records(pulses@).len() == pulses@.len());
    assert(buf@ =~= wire_bytes(pulse_records(pulses@)));
    buf
}

impl ResonanceState {
    /// The state file of this state.
    pub fn to_bytes(&self) -> (r: Vec<u8>)
        ensures
            r@ == state_bytes(
                self.instance_id,
                pulse_records(self.outgoing@),
                received_records(self.incoming@),
                self.field@,
            ),
    {
        let mut buf: Vec<u8> = Vec::new();
        buf.push(0x50);
        buf.push(0x4c);
        buf.push(0x53);
        buf.push(0x31);
        push_le(&mut buf, self.instance_id, 8);
        push_le(&mut buf, self.outgoing.len() as u64, 4);
        push_le(&mut buf, self.incoming.len() as u64, 4);
        push_le(&mut buf, self.field.len() as u64, 4);
        write_pulses(&mut buf, self.outgoing.as_slice());
        let ghost b1 = buf@;
        let ghost rs = received_records(self.incoming@);
        let n: usize = self.incoming.len();
        let mut i: usize = 0;
        assert(rs.take(0) =~= Seq::<ReceivedRecord>::empty());
        while i < n
            invariant
                i <= n,
                n == self.incoming@.len(),
                rs == received_records(self.incoming@),
                buf@ == b1 + receiveds_bytes(rs.take(i as int)),
            decreases n - i,
        {
            let r = &self.incoming[i];
            let ghost b = buf@;
            write_pulse(&mut buf, &r.pulse);
            push_le(&mut buf, r.local_matches as u64, 4);
            buf.push(if r.integrated {
                1
            } else {
                0
            });
            assert(buf@ =~= b + received_bytes(rs[i as int]));
            proof {
                lemma_receiveds_bytes_push(rs.take(i as int), rs[i as int]);
                assert(rs.take(i + 1) =~= rs.take(i as int).push(rs[i as int]));
            }
            i = i + 1;
        }
        assert(rs.take(n as int) =~= rs);
        let ghost b2 = buf@;
        let ghost cs = self.field@;
        let m: usize = self.field.len();
        let mut j: usize = 0;
        assert(cs.take(0) =~= Seq::<FieldCell>::empty());
        while j < m
            invariant
                j <= m,
                m == cs.len(),
                cs == self.field@,
                buf@ == b2 + cells_bytes(cs.take(j as int)),
            decreases m - j,
        {
            let c = self.field[j];
            let ghost b = buf@;
            push_le(&mut buf, (c.qx as u16) as u64, 2);
            push_le(&mut buf, (c.qy as u16) as u64, 2);
            push_le(&mut buf, (c.qz as u16) as u64, 2);
            push_le(&mut buf, c.value_bits as u64, 4);
            assert(buf@ =~= b + cell_bytes(c));
            proof {
                lemma_cells_bytes_push(cs.take(j as int), c);
                assert(cs.take(j + 1) =~= cs.take(j as int).push(c));
            }
            j = j + 1;
        }
        assert(cs.take(m as int) =~= cs);
        assert(pulse_records(self.outgoing@).len() == self.outgoing@.len());
        assert(buf@ =~= state_bytes(
            self.instance_id,
            pulse_records(self.outgoing@),
            received_records(self.incoming@),
            self.field@,
        ));
        buf
    }
}

// ─── Reading back what was written ──────────────────

proof fn lemma_u16_field(pre: Seq<u8>, x: Seq<u8>, post: Seq<u8>, a: int, v: nat)
    requires
        0 <= a,
        a + 2 <= x.len(),
        x.subrange(a, a + 2) == le_bytes(v, 2),
        v < 0x1_0000,
    ensures
        u16_at(pre + x + post, pre.len() + a) == v,
{
    lemma_pow256_values();
    lemma_sub(pre, x, post, a, a + 2);
    lemma_le_value_of_bytes(v, 2);
}

proof fn lemma_act_roundtrip(pre: Seq<u8>, a: (u32, u32, u32, u32), post: Seq<u8>)
    ensures
        act_bytes(a).len() == 16,
        act_at(pre + act_bytes(a) + post, pre.len() as int) == a,
{
    let x = act_bytes(a);
    lemma_le_bytes_len(a.0 as nat, 4);
    lemma_le_bytes_len(a.1 as nat, 4);
    lemma_le_bytes_len(a.2 as nat, 4);
    lemma_le_bytes_len(a.3 as nat, 4);
    assert(x.subrange(0, 4) =~= le_bytes(a.0 as nat, 4));
    assert(x.subrange(4, 8) =~= le_bytes(a.1 as nat, 4));
    assert(x.subrange(8, 12) =~= le_bytes(a.2 as nat, 4));
    assert(x.subrange(12, 16) =~= le_bytes(a.3 as nat, 4));
    lemma_u32_field(pre, x, post, 0, a.0 as nat);
    lemma_u32_field(pre, x, post, 4, a.1 as nat);
    lemma_u32_field(pre, x, post, 8, a.2 as nat);
    lemma_u32_field(pre, x, post, 12, a.3 as nat);
}

proof fn lemma_parse_acts(pre: Seq<u8>, s: Seq<(u32, u32, u32, u32)>, post: Seq<u8>)
    ensures
        acts_bytes(s).len() == 16 * s.len(),
        parse_acts(pre + acts_bytes(s) + post, pre.len() as int, s.len()) == s,
        acts_end(pre + acts_bytes(s) + post, pre.len() as int, s.len()) == pre.len() + acts_bytes(s).len(),
    decreases s.len(),
{
    let d = pre + acts_bytes(s) + post;
    if s.len() == 0 {
        assert(acts_bytes(s) =~= Seq::<u8>::empty());
    } else {
        let a = s[0];
        let rest = s.drop_first();
        lemma_act_roundtrip(pre, a, acts_bytes(rest) + post);
        assert(d =~= pre + act_bytes(a) + (acts_bytes(rest) + post));
        lemma_parse_acts(pre + act_bytes(a), rest, post);
        assert(d =~= (pre + act_bytes(a)) + acts_bytes(rest) + post);
        assert(seq![a] + rest =~= s);
    }
}

/// A pulse is written whole: it has fewer than 65536 activations.
pub open spec fn pulse_fits(p: PulseRecord) -> bool {
    p.activations.len() < 0x1_0000
}

proof fn lemma_pulse_roundtrip(pre: Seq<u8>, p: PulseRecord, post: Seq<u8>)
    requires
        pulse_fits(p),
    ensures
        pulse_bytes(p).len() == 31 + 16 * p.activations.len(),
        pulse_at(pre + pulse_bytes(p) + post, pre.len() as int) == p,
        pulse_end(pre + pulse_bytes(p) + post, pre.len() as int) == pre.len() + pulse_bytes(p).len(),
{
    let h = pulse_head(p);
    let x = pulse_bytes(p);
    let d = pre + x + post;
    let at = pre.len() as int;
    lemma_pow256_values();
    lemma_le_bytes_len(p.source_id as nat, 8);
    lemma_le_bytes_len(p.timestamp_ms as nat, 8);
    lemma_le_bytes_len(p.query_hash as nat, 8);
    lemma_le_bytes_len(p.strength_bits as nat, 4);
    lemma_le_bytes_len(p.activations.len(), 2);
    assert(h.len() == 31);
    assert(x.subrange(0, 8) =~= le_bytes(p.source_id as nat, 8));
    assert(x.subrange(8, 16) =~= le_bytes(p.timestamp_ms as nat, 8));
    assert(x.subrange(16, 24) =~= le_bytes(p.query_hash as nat, 8));
    assert(x.subrange(25, 29) =~= le_bytes(p.strength_bits as nat, 4));
    assert(x.subrange(29, 31) =~= le_bytes(p.activations.len(), 2));
    lemma_u64_field(pre, x, post, 0, p.source_id as nat);
    lemma_u64_field(pre, x, post, 8, p.timestamp_ms as nat);
    lemma_u64_field(pre, x, post, 16, p.query_hash as nat);
    lemma_u32_field(pre, x, post, 25, p.strength_bits as nat);
    lemma_u16_field(pre, x, post, 29, p.activations.len());
    assert(d[at + 24] == p.layer_hint);
    lemma_parse_acts(pre + h, p.activations, post);
    assert(d =~= (pre + h) + acts_bytes(p.activations) + post);
    assert(pulse_at(d, at) == p);
}

proof fn lemma_parse_wire(pre: Seq<u8>, ps: Seq<PulseRecord>, post: Seq<u8>)
    requires
        forall|i: int| 0 <= i < ps.len() ==> pulse_fits(#[trigger] ps[i]),
    ensures
        parse_wire(pre + pulses_bytes(ps) + post, pre.len() as int, ps.len()) == ps,
        wire_safe_from(pre + pulses_bytes(ps) + post, pre.len() as int, ps.len()),
    decreases ps.len(),
{
    let d = pre + pulses_bytes(ps) + post;
    if ps.len() > 0 {
        let p = ps[0];
        let rest = ps.drop_first();
        assert(pulse_fits(ps[0]));
        assert forall|i: int| 0 <= i < rest.len() implies pulse_fits(#[trigger] rest[i]) by {
            assert(rest[i] == ps[i + 1]);
        }
        lemma_pulse_roundtrip(pre, p, pulses_bytes(rest) + post);
        assert(d =~= pre + pulse_bytes(p) + (pulses_bytes(rest) + post));
        lemma_parse_wire(pre + pulse_bytes(p), rest, post);
        assert(d =~= (pre + pulse_bytes(p)) + pulses_bytes(rest) + post);
        assert(seq![p] + rest =~= ps);
    }
}

proof fn lemma_parse_out(pre: Seq<u8>, ps: Seq<PulseRecord>, post: Seq<u8>)
    requires
        forall|i: int| 0 <= i < ps.len() ==> pulse_fits(#[trigger] ps[i]),
    ensures
        parse_out(pre + pulses_bytes(ps) + post, pre.len() as int, ps.len()) == ps,
        out_end(pre + pulses_bytes(ps) + post, pre.len() as int, ps.len()) == pre.len() + pulses_bytes(
            ps,
        ).len(),
    decreases ps.len(),
{
    let d = pre + pulses_bytes(ps) + post;
    if ps.len() == 0 {
        assert(pulses_bytes(ps) =~= Seq::<u8>::empty());
    } else {
        let p = ps[0];
        let rest = ps.drop_first();
        assert(pulse_fits(ps[0]));
        assert forall|i: int| 0 <= i < rest.len() implies pulse_fits(#[trigger] rest[i]) by {
            assert(rest[i] == ps[i + 1]);
        }
        lemma_pulse_roundtrip(pre, p, pulses_bytes(rest) + post);
        assert(d =~= pre + pulse_bytes(p) + (pulses_bytes(rest) + post));
        lemma_parse_out(pre + pulse_bytes(p), rest, post);
        assert(d =~= (pre + pulse_bytes(p)) + pulses_bytes(rest) + post);
        assert(seq![p] + rest =~= ps);
    }
}

proof fn lemma_received_roundtrip(pre: Seq<u8>, r: ReceivedRecord, post: Seq<u8>)
    requires
        pulse_fits(r.pulse),
    ensures
        received_bytes(r).len() == 36 + 16 * r.pulse.activations.len(),
        received_ok(pre + received_bytes(r) + post, pre.len() as int),
        received_at(pre + received_bytes(r) + post, pre.len() as int) == r,
        pulse_end(pre + received_bytes(r) + post, pre.len() as int) + 5 == pre.len() + received_bytes(r).len(),
{
    let pb = pulse_bytes(r.pulse);
    let tail = le_bytes(r.local_matches as nat, 4) + seq![if r.integrated { 1u8 } else { 0u8 }];
    let d = pre + received_bytes(r) + post;
    lemma_le_bytes_len(r.local_matches as nat, 4);
    lemma_pulse_roundtrip(pre, r.pulse, tail + post);
    assert(d =~= pre + pb + (tail + post));
    let e: int = pre.len() as int + pb.len() as int;
    let x = tail;
    assert(x.subrange(0, 4) =~= le_bytes(r.local_matches as nat, 4));
    lemma_u32_field(pre + pb, x, post, 0, r.local_matches as nat);
    assert(d =~= (pre + pb) + x + post);
    assert(d[e + 4] == x[4]);
    assert(received_at(d, pre.len() as int) == r);
}

proof fn lemma_parse_in(pre: Seq<u8>, rs: Seq<ReceivedRecord>, post: Seq<u8>)
    requires
        forall|i: int| 0 <= i < rs.len() ==> pulse_fits(#[trigger] rs[i].pulse),
    ensures
        parse_in(pre + receiveds_bytes(rs) + post, pre.len() as int, rs.len()) == rs,
        in_end(pre + receiveds_bytes(rs) + post, pre.len() as int, rs.len()) == pre.len() + receiveds_bytes(
            rs,
        ).len(),
    decreases rs.len(),
{
    let d = pre + receiveds_bytes(rs) + post;
    if rs.len() == 0 {
        assert(receiveds_bytes(rs) =~= Seq::<u8>::empty());
    } else {
        let r = rs[0];
        let rest = rs.drop_first();
        assert(pulse_fits(rs[0].pulse));
        assert forall|i: int| 0 <= i < rest.len() implies pulse_fits(#[trigger] rest[i].pulse) by {
            assert(rest[i] == rs[i + 1]);
        }
        lemma_received_roundtrip(pre, r, receiveds_bytes(rest) + post);
        assert(d =~= pre + received_bytes(r) + (receiveds_bytes(rest) + post));
        lemma_parse_in(pre + received_bytes(r), rest, post);
        assert(d =~= (pre + received_bytes(r)) + receiveds_bytes(rest) + post);
        assert(seq![r] + rest =~= rs);
    }
}

proof fn lemma_cell_roundtrip(pre: Seq<u8>, c: FieldCell, post: Seq<u8>)
    ensures
        cell_bytes(c).len() == 10,
        cell_at(pre + cell_bytes(c) + post, pre.len() as int) == c,
{
    let x = cell_bytes(c);
    let (ux, uy, uz) = (c.qx as u16, c.qy as u16, c.qz as u16);
    lemma_le_bytes_len(ux as nat, 2);
    lemma_le_bytes_len(uy as nat, 2);
    lemma_le_bytes_len(uz as nat, 2);
    lemma_le_bytes_len(c.value_bits as nat, 4);
    assert(x.subrange(0, 2) =~= le_bytes(ux as nat, 2));
    assert(x.subrange(2, 4) =~= le_bytes(uy as nat, 2));
    assert(x.subrange(4, 6) =~= le_bytes(uz as nat, 2));
    assert(x.subrange(6, 10) =~= le_bytes(c.value_bits as nat, 4));
    lemma_u16_field(pre, x, post, 0, ux as nat);
    lemma_u16_field(pre, x, post, 2, uy as nat);
    lemma_u16_field(pre, x, post, 4, uz as nat);
    lemma_u32_field(pre, x, post, 6, c.value_bits as nat);
    let (qx, qy, qz) = (c.qx, c.qy, c.qz);
    assert((qx as u16) as i16 == qx) by (bit_vector);
    assert((qy as u16) as i16 == qy) by (bit_vector);
    assert((qz as u16) as i16 == qz) by (bit_vector);
}

proof fn lemma_parse_field(pre: Seq<u8>, cs: Seq<FieldCell>, post: Seq<u8>)
    ensures
        parse_field(pre + cells_bytes(cs) + post, pre.len() as int, cs.len()) == cs,
    decreases cs.len(),
{
    let d = pre + cells_bytes(cs) + post;
    if cs.len() > 0 {
        let c = cs[0];
        let rest = cs.drop_first();
        lemma_cell_roundtrip(pre, c, cells_bytes(rest) + post);
        assert(d =~= pre + cell_bytes(c) + (cells_bytes(rest) + post));
        lemma_parse_field(pre + cell_bytes(c), rest, post);
        assert(d =~= (pre + cell_bytes(c)) + cells_bytes(rest) + post);
        assert(seq![c] + rest =~= cs);
    }
}

/// Law: a wire packet of pulses that each have fewer than 65536 activations
/// is read without running past its end and gives back the same pulses.
pub proof fn lemma_wire_roundtrip(ps: Seq<PulseRecord>)
    requires
        ps.len() < 0x1_0000_0000,
        forall|i: int| 0 <= i < ps.len() ==> pulse_fits(#[trigger] ps[i]),
    ensures
        wire_safe(wire_bytes(ps)),
        wire_pulses(wire_bytes(ps)) == ps,
{
    let d = wire_bytes(ps);
    let h = wire_magic() + le_bytes(ps.len(), 4);
    lemma_pow256_values();
    lemma_le_bytes_len(ps.len(), 4);
    assert(d.subrange(0, 4) =~= wire_magic());
    assert(h.subrange(4, 8) =~= le_bytes(ps.len(), 4));
    lemma_u32_field(Seq::empty(), h, pulses_bytes(ps), 4, ps.len());
    assert(Seq::<u8>::empty() + h + pulses_bytes(ps) =~= d);
    lemma_parse_wire(h, ps, Seq::empty());
    assert(h + pulses_bytes(ps) + Seq::<u8>::empty() =~= d);
}

/// Law: saving a state and loading the bytes gives back the same instance id,
/// outgoing and received pulses, and field cells, when pulses have fewer than
/// 65536 activations, counts fit in 32 bits and each position has one cell.
pub proof fn lemma_state_roundtrip(
    id: u64,
    out: Seq<PulseRecord>,
    inc: Seq<ReceivedRecord>,
    field: Seq<FieldCell>,
)
    requires
        out.len() < 0x1_0000_0000,
        inc.len() < 0x1_0000_0000,
        field.len() < 0x1_0000_0000,
        forall|i: int| 0 <= i < out.len() ==> pulse_fits(#[trigger] out[i]),
        forall|i: int| 0 <= i < inc.len() ==> pulse_fits(#[trigger] inc[i].pulse),
        keys_unique(field),
    ensures
        state_header_ok(state_bytes(id, out, inc, field)),
        u64_at(state_bytes(id, out, inc, field), 4) == id,
        state_out(state_bytes(id, out, inc, field)) == out,
        state_in(state_bytes(id, out, inc, field)) == inc,
        table(state_field(state_bytes(id, out, inc, field))) == field,
{
    let d = state_bytes(id, out, inc, field);
    let h = state_magic() + le_bytes(id as nat, 8) + le_bytes(out.len(), 4) + le_bytes(inc.len(), 4)
        + le_bytes(field.len(), 4);
    let body = pulses_bytes(out) + receiveds_bytes(inc) + cells_bytes(field);
    lemma_pow256_values();
    lemma_le_bytes_len(id as nat, 8);
    lemma_le_bytes_len(out.len(), 4);
    lemma_le_bytes_len(inc.len(), 4);
    lemma_le_bytes_len(field.len(), 4);
    assert(h.len() == 24);
    assert(d =~= Seq::<u8>::empty() + h + body);
    assert(d.subrange(0, 4) =~= state_magic());
    assert(h.subrange(4, 12) =~= le_bytes(id as nat, 8));
    assert(h.subrange(12, 16) =~= le_bytes(out.len(), 4));
    assert(h.subrange(16, 20) =~= le_bytes(inc.len(), 4));
    assert(h.subrange(20, 24) =~= le_bytes(field.len(), 4));
    lemma_u64_field(Seq::empty(), h, body, 4, id as nat);
    lemma_u32_field(Seq::empty(), h, body, 12, out.len());
    lemma_u32_field(Seq::empty(), h, body, 16, inc.len());
    lemma_u32_field(Seq::empty(), h, body, 20, field.len());
    lemma_parse_out(h, out, receiveds_bytes(inc) + cells_bytes(field));
    assert(d =~= h + pulses_bytes(out) + (receiveds_bytes(inc) + cells_bytes(field)));
    let p1 = h + pulses_bytes(out);
    lemma_parse_in(p1, inc, cells_bytes(field));
    assert(d =~= p1 + receiveds_bytes(inc) + cells_bytes(field));
    let p2 = p1 + receiveds_bytes(inc);
    lemma_parse_field(p2, field, Seq::empty());
    assert(d =~= p2 + cells_bytes(field) + Seq::<u8>::empty());
    lemma_table_of_unique(field);
}


/// Whether every pulse the wire reader starts has its whole head, so that
/// decoding does not run past the end.
pub fn wire_is_safe(data: &[u8]) -> (r: bool)
    ensures
        r == wire_safe(data@),
{
    let len: usize = data.len();
    if len < 8 || data[0] != 0x50 || data[1] != 0x58 || data[2] != 0x43 || data[3] != 0x31 {
        proof {
            if len >= 8 {
                assert(data@.subrange(0, 4) != wire_magic()) by {
                    if data@.subrange(0, 4) == wire_magic() {
                        assert(data@.subrange(0, 4)[0] == data@[0]);
                        assert(data@.subrange(0, 4)[1] == data@[1]);
                        assert(data@.subrange(0, 4)[2] == data@[2]);
                        assert(data@.subrange(0, 4)[3] == data@[3]);
                    }
                }
            }
        }
        return true;
    }
    assert(data@.subrange(0, 4) =~= wire_magic());
    let count: u32 = read_u32(data, 4);
    let mut pos: usize = 8;
    let mut k: u32 = 0;
    loop
        invariant
            8 <= pos <= len,
            len == data@.len(),
            k <= count,
            wire_header_ok(data@),
            count == u32_at(data@, 4),
            wire_safe(data@) == wire_safe_from(data@, pos as int, (count - k) as nat),
        decreases count - k,
    {
        if k == count || len - pos < 29 {
            return true;
        }
        if len - pos < 31 {
            return false;
        }
        let (_p, end) = read_pulse(data, pos);
        pos = end;
        k = k + 1;
    }
}

/// The pulses of a wire packet, or `None` for a packet whose last pulse
/// head is cut short (one that `decode_pulses` cannot read).
pub fn try_decode_pulses(data: &[u8]) -> (r: Option<Vec<Pulse>>)
    ensures
        r is None <==> !wire_safe(data@),
        r matches Some(v) ==> pulse_records(v@) == wire_pulses(data@),
{
    if wire_is_safe(data) {
        Some(decode_pulses(data))
    } else {
        None
    }
}

// ─── Expiry ─────────────────────────────────────────

/// How long a pulse lives: two days.
pub const PULSE_TTL_MS: u64 = 172_800_000;

/// A pulse stamped `ts` is still live at `now`.
pub open spec fn pulse_live(now: u64, ts: u64) -> bool {
    now - ts < PULSE_TTL_MS
}

/// The live pulses of `s` at `now`, in order.
pub open spec fn live_pulses(s: Seq<PulseRecord>, now: u64) -> Seq<PulseRecord>
    decreases s.len(),
{
    if s.len() == 0 {
        Seq::empty()
    } else if pulse_live(now, s.last().timestamp_ms) {
        live_pulses(s.drop_last(), now).push(s.last())
    } else {
        live_pulses(s.drop_last(), now)
    }
}

/// The received pulses of `s` whose pulse is live at `now`, in order.
pub open spec fn live_received(s: Seq<ReceivedRecord>, now: u64) -> Seq<ReceivedRecord>
    decreases s.len(),
{
    if s.len() == 0 {
        Seq::empty()
    } else if pulse_live(now, s.last().pulse.timestamp_ms) {
        live_received(s.drop_last(), now).push(s.last())
    } else {
        live_received(s.drop_last(), now)
    }
}

/// No pulse of the state is stamped later than `now`.
pub open spec fn stamped_by(st: &ResonanceState, now: u64) -> bool {
    &&& forall|k: int| 0 <= k < st.outgoing@.len() ==> #[trigger] st.outgoing@[k].timestamp_ms <= now
    &&& forall|k: int| 0 <= k < st.incoming@.len() ==> #[trigger] st.incoming@[k].pulse.timestamp_ms <= now
}

fn expire_outgoing(v: &mut Vec<Pulse>, now: u64)
    requires
        forall|k: int| 0 <= k < old(v)@.len() ==> #[trigger] old(v)@[k].timestamp_ms <= now,
    ensures
        pulse_records(final(v)@) == live_pulses(pulse_records(old(v)@), now),
{
    let ghost r = pulse_records(v@);
    let ghost n = v@.len();
    let mut i: usize = 0;
    let ghost mut j: int = 0;
    assert(r.take(0) =~= Seq::<PulseRecord>::empty());
    assert(pulse_records(v@) =~= live_pulses(r.take(0), now) + r.skip(0));
    while i < v.len()
        invariant
            0 <= j <= n,
            n == r.len(),
            forall|k: int| 0 <= k < n ==> #[trigger] r[k].timestamp_ms <= now,
            pulse_records(v@) == live_pulses(r.take(j), now) + r.skip(j),
            i == live_pulses(r.take(j), now).len(),
        decreases n - j,
    {
        let ghost before = pulse_records(v@);
        let ghost kept = live_pulses(r.take(j), now);
        assert(before[i as int] == r[j]);
        assert(r.take(j + 1).drop_last() =~= r.take(j));
        assert(r.take(j + 1).last() == r[j]);
        assert(v@[i as int]@ == before[i as int]);
        assert(r[j].timestamp_ms <= now);
        if now - v[i].timestamp_ms < PULSE_TTL_MS {
            assert(before =~= kept.push(r[j]) + r.skip(j + 1));
            i = i + 1;
        } else {
            v.remove(i);
            assert(pulse_records(v@) =~= before.remove(i as int));
            assert(pulse_records(v@) =~= kept + r.skip(j + 1));
        }
        proof {
            j = j + 1;
        }
    }
    assert(j == n) by {
        if j < n {
            assert(pulse_records(v@).len() == i + (n - j));
        }
    }
    assert(r.take(n as int) =~= r);
    assert(pulse_records(v@) =~= live_pulses(r, now));
}

fn expire_incoming(v: &mut Vec<ReceivedPulse>, now: u64)
    requires
        forall|k: int| 0 <= k < old(v)@.len() ==> #[trigger] old(v)@[k].pulse.timestamp_ms <= now,
    ensures
        received_records(final(v)@) == live_received(received_records(old(v)@), now),
{
    let ghost r = received_records(v@);
    let ghost n = v@.len();
    let mut i: usize = 0;
    let ghost mut j: int = 0;
    assert(r.take(0) =~= Seq::<ReceivedRecord>::empty());
    assert(received_records(v@) =~= live_received(r.take(0), now) + r.skip(0));
    while i < v.len()
        invariant
            0 <= j <= n,
            n == r.len(),
            forall|k: int| 0 <= k < n ==> #[trigger] r[k].pulse.timestamp_ms <= now,
            received_records(v@) == live_received(r.take(j), now) + r.skip(j),
            i == live_received(r.take(j), now).len(),
        decreases n - j,
    {
        let ghost before = received_records(v@);
        let ghost kept = live_received(r.take(j), now);
        assert(before[i as int] == r[j]);
        assert(r.take(j + 1).drop_last() =~= r.take(j));
        assert(r.take(j + 1).last() == r[j]);
        assert(v@[i as int]@ == before[i as int]);
        assert(r[j].pulse.timestamp_ms <= now);
        if now - v[i].pulse.timestamp_ms < PULSE_TTL_MS {
            assert(before =~= kept.push(r[j]) + r.skip(j + 1));
            i = i + 1;
        } else {
            v.remove(i);
            assert(received_records(v@) =~= before.remove(i as int));
            assert(received_records(v@) =~= kept + r.skip(j + 1));
        }
        proof {
            j = j + 1;
        }
    }
    assert(j == n) by {
        if j < n {
            assert(received_records(v@).len() == i + (n - j));
        }
    }
    assert(r.take(n as int) =~= r);
    assert(received_records(v@) =~= live_received(r, now));
}

impl ResonanceState {
    /// Drops the outgoing and received pulses that are two days old or
    /// older at `now_ms`, keeping the others in order; the instance id and
    /// the field stay.
    pub fn expire_pulses(&mut self, now_ms: u64)
        requires
            stamped_by(old(self), now_ms),
        ensures
            final(self).instance_id == old(self).instance_id,
            final(self).field@ == old(self).field@,
            pulse_records(final(self).outgoing@) == live_pulses(pulse_records(old(self).outgoing@), now_ms),
            received_records(final(self).incoming@) == live_received(
                received_records(old(self).incoming@),
                now_ms,
            ),
    {
        expire_outgoing(&mut self.outgoing, now_ms);
        expire_incoming(&mut self.incoming, now_ms);
    }
}

} // verus!
