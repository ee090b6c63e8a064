//! Mirror neuron layer: the resonance echoes between activation patterns and
//! the per-block resonance, and their file.
//!
//! File format (`resonance.bin`, `RES1`): [u32 echo_count][u32 block_count],
//! then per echo [u64 timestamp_ms][u64 trigger_hash][u64 echo_hash]
//! [f32 similarity][u16 n][n × u32 shared block], then per block
//! [u32 block][u32 echo_count][f32 strength]; little-endian, floats carried
//! as their IEEE-754 bit patterns.
use vstd::prelude::*;
use crate::codec::{
    le_bytes, lemma_le_bytes_len, lemma_pow256_values, lemma_sub, lemma_u32_field, lemma_u64_field,
    lemma_le_value_of_bytes, lemma_words_bytes_push, lemma_words_layout, push_le, read_le, u16_at,
    u32_at, u64_at, words_bytes,
};
use crate::keyed::{
    has_key, keys_unique, lemma_table_of_unique, lemma_table_unique, lemma_upsert_unique, table, upsert,
    Keyed,
};
use crate::multimodal::{read_u16, read_u32};

verus! {

/// A new query matched a past activation pattern.
#[derive(Clone, Debug, PartialEq, Eq)]
pub struct ResonanceEcho {
    pub timestamp_ms: u64,
    /// The new query's fingerprint hash.
    pub trigger_hash: u64,
    /// The matched past fingerprint hash.
    pub echo_hash: u64,
    /// Bit pattern of the `f32` cosine similarity.
    pub similarity_bits: u32,
    /// Blocks in both patterns.
    pub shared_blocks: Vec<u32>,
}

/// Mathematical value of an echo.
pub struct EchoRecord {
    pub timestamp_ms: u64,
    pub trigger_hash: u64,
    pub echo_hash: u64,
    pub similarity_bits: u32,
    pub shared_blocks: Seq<u32>,
}

impl View for ResonanceEcho {
    type V = EchoRecord;

    open spec fn view(&self) -> EchoRecord {
        EchoRecord {
            timestamp_ms: self.timestamp_ms,
            trigger_hash: self.trigger_hash,
            echo_hash: self.echo_hash,
            similarity_bits: self.similarity_bits,
            shared_blocks: self.shared_blocks@,
        }
    }
}

pub open spec fn echo_records(v: Seq<ResonanceEcho>) -> Seq<EchoRecord> {
    v.map_values(|e: ResonanceEcho| e@)
}

/// Resonance accumulated by one block.
#[derive(Clone, Copy, Debug, PartialEq, Eq)]
pub struct BlockResonance {
    pub block_idx: u32,
    /// How many echoes the block appeared in.
    pub echo_count: u32,
    /// Bit pattern of the `f32` accumulated strength.
    pub strength_bits: u32,
}

impl Keyed for BlockResonance {
    /// Resonance is stored per block.
    open spec fn key(&self) -> int {
        self.block_idx as int
    }
}

/// Mirror neuron state: the echoes and one resonance entry per block.
pub struct MirrorState {
    pub echoes: Vec<ResonanceEcho>,
    pub block_resonance: Vec<BlockResonance>,
}

// ─── Reading ─────────────────────────────────────────

/// Up to `n` block ids from `q`, while four bytes remain.
pub open spec fn parse_shared(d: Seq<u8>, q: int, n: nat) -> Seq<u32>
    decreases n,
{
    if n == 0 || q + 4 > d.len() {
        Seq::empty()
    } else {
        seq![u32_at(d, q)] + parse_shared(d, q + 4, (n - 1) as nat)
    }
}

pub open spec fn shared_end(d: Seq<u8>, q: int, n: nat) -> int
    decreases n,
{
    if n == 0 || q + 4 > d.len() {
        q
    } else {
        shared_end(d, q + 4, (n - 1) as nat)
    }
}

pub open spec fn echo_at(d: Seq<u8>, p: int) -> EchoRecord {
    EchoRecord {
        timestamp_ms: u64_at(d, p),
        trigger_hash: u64_at(d, p + 8),
        echo_hash: u64_at(d, p + 16),
        similarity_bits: u32_at(d, p + 24),
        shared_blocks: parse_shared(d, p + 30, u16_at(d, p + 28) as nat),
    }
}

pub open spec fn echo_end(d: Seq<u8>, p: int) -> int {
    shared_end(d, p + 30, u16_at(d, p + 28) as nat)
}

/// Up to `count` echoes from `p`: an echo is read while 28 bytes remain at
/// its start.
pub open spec fn parse_echoes(d: Seq<u8>, p: int, count: nat) -> Seq<EchoRecord>
    decreases count,
{
    if count == 0 || p + 28 > d.len() {
        Seq::empty()
    } else {
        seq![echo_at(d, p)] + parse_echoes(d, echo_end(d, p), (count - 1) as nat)
    }
}

pub open spec fn echoes_end(d: Seq<u8>, p: int, count: nat) -> int
    decreases count,
{
    if count == 0 || p + 28 > d.len() {
        p
    } else {
        echoes_end(d, echo_end(d, p), (count - 1) as nat)
    }
}

/// Each echo the reader starts has its whole 30-byte head (the reader checks
/// for 28 bytes and then reads 30).
pub open spec fn echoes_safe(d: Seq<u8>, p: int, count: nat) -> bool
    decreases count,
{
    count == 0 || p + 28 > d.len() || (p + 30 <= d.len() && echoes_safe(d, echo_end(d, p), (count - 1) as nat))
}

pub open spec fn block_at(d: Seq<u8>, p: int) -> BlockResonance {
    BlockResonance { block_idx: u32_at(d, p), echo_count: u32_at(d, p + 4), strength_bits: u32_at(d, p + 8) }
}

pub open spec fn parse_blocks(d: Seq<u8>, p: int, count: nat) -> Seq<BlockResonance>
    decreases count,
{
    if count == 0 || p + 12 > d.len() {
        Seq::empty()
    } else {
        seq![block_at(d, p)] + parse_blocks(d, p + 12, (count - 1) as nat)
    }
}

pub open spec fn res_magic() -> Seq<u8> {
    seq![0x52u8, 0x45u8, 0x53u8, 0x31u8]
}

/// A file the reader takes: 12 bytes or more starting with `RES1`.
pub open spec fn mirror_header_ok(d: Seq<u8>) -> bool {
    d.len() >= 12 && d.subrange(0, 4) == res_magic()
}

pub open spec fn mirror_echoes(d: Seq<u8>) -> Seq<EchoRecord> {
    parse_echoes(d, 12, u32_at(d, 4) as nat)
}

pub open spec fn mirror_blocks(d: Seq<u8>) -> Seq<BlockResonance> {
    parse_blocks(d, echoes_end(d, 12, u32_at(d, 4) as nat), u32_at(d, 8) as nat)
}

/// The reader does not run past the end of the file.
pub open spec fn mirror_safe(d: Seq<u8>) -> bool {
    !mirror_header_ok(d) || echoes_safe(d, 12, u32_at(d, 4) as nat)
}

/// Reads the echo at `p` and where it ends.
fn read_echo(data: &[u8], p: usize) -> (r: (ResonanceEcho, usize))
    requires
        p + 30 <= data@.len(),
    ensures
        r.0@ == echo_at(data@, p as int),
        r.1 as int == echo_end(data@, p as int),
        p + 30 <= r.1 <= data@.len(),
{
    let len: usize = data.len();
    let timestamp_ms: u64 = read_le(data, p, 8);
    let trigger_hash: u64 = read_le(data, p + 8, 8);
    let echo_hash: u64 = read_le(data, p + 16, 8);
    let similarity_bits: u32 = read_u32(data, p + 24);
    let n: u16 = read_u16(data, p + 28);
    let q0: usize = p + 30;
    let mut q: usize = q0;
    let mut k: u16 = 0;
    let mut shared: Vec<u32> = Vec::new();
    assert(shared@ + parse_shared(data@, q0 as int, n as nat) =~= parse_shared(data@, q0 as int, n as nat));
    loop
        invariant
            q0 <= q <= len,
            len == data@.len(),
            k <= n,
            parse_shared(data@, q0 as int, n as nat) == shared@ + parse_shared(data@, q as int, (n - k) as nat),
            shared_end(data@, q0 as int, n as nat) == shared_end(data@, q as int, (n - k) as nat),
        ensures
            parse_shared(data@, q0 as int, n as nat) == shared@,
            shared_end(data@, q0 as int, n as nat) == q,
            q0 <= q <= len,
        decreases n - k,
    {
        if k == n || len - q < 4 {
            assert(parse_shared(data@, q as int, (n - k) as nat) =~= Seq::<u32>::empty());
            assert(shared@ + Seq::<u32>::empty() =~= shared@);
            break;
        }
        let b: u32 = read_u32(data, q);
        let ghost prev = shared@;
        shared.push(b);
        assert(prev + parse_shared(data@, q as int, (n - k) as nat) =~= shared@ + parse_shared(
            data@,
            q + 4,
            (n - k - 1) as nat,
        ));
        q = q + 4;
        k = k + 1;
    }
    assert(n == u16_at(data@, p + 28));
    (ResonanceEcho { timestamp_ms, trigger_hash, echo_hash, similarity_bits, shared_blocks: shared }, q)
}

/// Stores a block's resonance under its block.
fn upsert_block(v: &mut Vec<BlockResonance>, b: BlockResonance)
    requires
        keys_unique(old(v)@),
    ensures
        final(v)@ == upsert(old(v)@, b),
        keys_unique(final(v)@),
{
    proof {
        lemma_upsert_unique(old(v)@, b);
    }
    let n: usize = v.len();
    let mut i: usize = 0;
    while i < n
        invariant
            i <= n,
            n == v@.len(),
            v@ == old(v)@,
            keys_unique(v@),
            forall|j: int| 0 <= j < i ==> (#[trigger] v@[j]).key() != b.key(),
        decreases n - i,
    {
        if v[i].block_idx == b.block_idx {
            assert(v@[i as int].key() == b.key());
            let ghost c = choose|j: int| 0 <= j < v@.len() && #[trigger] v@[j].key() == b.key();
            assert(c == i);
            v.set(i, b);
            return;
        }
        i = i + 1;
    }
    assert(!has_key(old(v)@, b.key()));
    v.push(b);
}

impl MirrorState {
    /// The state a file holds: none for anything shorter than 12 bytes or
    /// not starting with `RES1`. Block entries are inserted in file order; a
    /// later entry for a block replaces an earlier one.
    pub fn from_bytes(data: &[u8]) -> (r: Option<MirrorState>)
        requires
            mirror_safe(data@),
        ensures
            r is None <==> !mirror_header_ok(data@),
            r matches Some(st) ==> {
                &&& echo_records(st.echoes@) == mirror_echoes(data@)
                &&& st.block_resonance@ == table(mirror_blocks(data@))
                &&& keys_unique(st.block_resonance@)
            },
    {
        let len: usize = data.len();
        if len < 12 || data[0] != 0x52 || data[1] != 0x45 || data[2] != 0x53 || data[3] != 0x31 {
            proof {
                if len >= 12 {
                    assert(data@.subrange(0, 4) != res_magic()) by {
                        if data@.subrange(0, 4) == res_magic() {
                            assert(data@.subrange(0, 4)[0] == data@[0]);
                            assert(data@.subrange(0, 4)[1] == data@[1]);
                            assert(data@.subrange(0, 4)[2] == data@[2]);
                            assert(data@.subrange(0, 4)[3] == data@[3]);
                        }
                    }
                }
            }
            return None;
        }
        assert(data@.subrange(0, 4) =~= res_magic());
        let echo_count: u32 = read_u32(data, 4);
        let block_count: u32 = read_u32(data, 8);
        let mut echoes: Vec<ResonanceEcho> = Vec::new();
        let mut pos: usize = 12;
        let mut k: u32 = 0;
        let ghost all = parse_echoes(data@, 12, echo_count as nat);
        assert(echo_records(echoes@) + all =~= all);
        loop
            invariant
                12 <= pos <= len,
                len == data@.len(),
                k <= echo_count,
                all == echo_records(echoes@) + parse_echoes(data@, pos as int, (echo_count - k) as nat),
                echoes_end(data@, 12, echo_count as nat) == echoes_end(data@, pos as int, (echo_count - k) as nat),
                echoes_safe(data@, pos as int, (echo_count - k) as nat),
            ensures
                echo_records(echoes@) == all,
                pos == echoes_end(data@, 12, echo_count as nat),
                pos <= len,
            decreases echo_count - k,
        {
            if k == echo_count || len - pos < 28 {
                assert(parse_echoes(data@, pos as int, (echo_count - k) as nat) =~= Seq::<EchoRecord>::empty());
                assert(echo_records(echoes@) + Seq::<EchoRecord>::empty() =~= echo_records(echoes@));
                break;
            }
            let (e, end) = read_echo(data, pos);
            let ghost next = parse_echoes(data@, end as int, (echo_count - k - 1) as nat);
            let ghost prev = echo_records(echoes@);
            let ghost ev = e@;
            echoes.push(e);
            assert(echo_records(echoes@) =~= prev.push(ev));
            assert(prev + (seq![ev] + next) =~= echo_records(echoes@) + next);
            pos = end;
            k = k + 1;
        }
        let mut blocks: Vec<BlockResonance> = Vec::new();
        let b_start: usize = pos;
        let mut k: u32 = 0;
        let ghost all_b = parse_blocks(data@, b_start as int, block_count as nat);
        let ghost mut done: Seq<BlockResonance> = Seq::empty();
        assert(done + all_b =~= all_b);
        loop
            invariant
                b_start <= pos <= len,
                len == data@.len(),
                k <= block_count,
                all_b == done + parse_blocks(data@, pos as int, (block_count - k) as nat),
                blocks@ == table(done),
                keys_unique(blocks@),
            ensures
                blocks@ == table(all_b),
                keys_unique(blocks@),
            decreases block_count - k,
        {
            if k == block_count || len - pos < 12 {
                assert(parse_blocks(data@, pos as int, (block_count - k) as nat) =~= Seq::<BlockResonance>::empty());
                assert(done + Seq::<BlockResonance>::empty() =~= done);
                break;
            }
            let b = BlockResonance {
                block_idx: read_u32(data, pos),
                echo_count: read_u32(data, pos + 4),
                strength_bits: read_u32(data, pos + 8),
            };
            let ghost next = parse_blocks(data@, pos + 12, (block_count - k - 1) as nat);
            proof {
                assert(done.push(b).drop_last() =~= done);
                assert(done + (seq![b] + next) =~= done.push(b) + next);
                done = done.push(b);
            }
            upsert_block(&mut blocks, b);
            pos = pos + 12;
            k = k + 1;
        }
        proof {
            lemma_table_unique(all_b);
        }
        Some(MirrorState { echoes, block_resonance: blocks })
    }

    /// The file of this state. Counts are written as `u32` and a shared
    /// block count as `u16`, each keeping its low bytes.
    pub fn to_bytes(&self) -> (r: Vec<u8>)
        ensures
            r@ == mirror_bytes(echo_records(self.echoes@), self.block_resonance@),
    {
        let mut buf: Vec<u8> = Vec::new();
        buf.push(0x52);
        buf.push(0x45);
        buf.push(0x53);
        buf.push(0x31);
        push_le(&mut buf, self.echoes.len() as u64, 4);
        push_le(&mut buf, self.block_resonance.len() as u64, 4);
        let ghost b0 = buf@;
        let ghost es = echo_records(self.echoes@);
        let n: usize = self.echoes.len();
        let mut i: usize = 0;
        assert(es.take(0) =~= Seq::<EchoRecord>::empty());
        while i < n
            invariant
                i <= n,
                n == self.echoes@.len(),
                es == echo_records(self.echoes@),
                buf@ == b0 + echoes_bytes(es.take(i as int)),
            decreases n - i,
        {
            let e = &self.echoes[i];
            let ghost b = buf@;
            push_le(&mut buf, e.timestamp_ms, 8);
            push_le(&mut buf, e.trigger_hash, 8);
            push_le(&mut buf, e.echo_hash, 8);
            push_le(&mut buf, e.similarity_bits as u64, 4);
            let m: usize = e.shared_blocks.len();
            push_le(&mut buf, m as u64, 2);
            let ghost b1 = buf@;
            let ghost sb = e.shared_blocks@;
            let mut j: usize = 0;
            assert(sb.take(0) =~= Seq::<u32>::empty());
            while j < m
                invariant
                    j <= m,
                    m == sb.len(),
                    sb == e.shared_blocks@,
                    buf@ == b1 + words_bytes(sb.take(j as int)),
                decreases m - j,
            {
                push_le(&mut buf, e.shared_blocks[j] as u64, 4);
                proof {
                    lemma_words_bytes_push(sb.take(j as int), sb[j as int]);
                    assert(sb.take(j + 1) =~= sb.take(j as int).push(sb[j as int]));
                }
                j = j + 1;
            }
            assert(sb.take(m as int) =~= sb);
            assert(buf@ =~= b + echo_bytes(es[i as int]));
            proof {
                lemma_echoes_bytes_push(es.take(i as int), es[i as int]);
                assert(es.take(i + 1) =~= es.take(i as int).push(es[i as int]));
            }
            i = i + 1;
        }
        assert(es.take(n as int) =~= es);
        let ghost b2 = buf@;
        let ghost bs = self.block_resonance@;
        let m: usize = self.block_resonance.len();
        let mut j: usize = 0;
        assert(bs.take(0) =~= Seq::<BlockResonance>::empty());
        while j < m
            invariant
                j <= m,
                m == bs.len(),
                bs == self.block_resonance@,
                buf@ == b2 + blocks_bytes(bs.take(j as int)),
            decreases m - j,
        {
            let b = self.block_resonance[j];
            let ghost before = buf@;
            push_le(&mut buf, b.block_idx as u64, 4);
            push_le(&mut buf, b.echo_count as u64, 4);
            push_le(&mut buf, b.strength_bits as u64, 4);
            assert(buf@ =~= before + block_bytes(b));
            proof {
                lemma_blocks_bytes_push(bs.take(j as int), b);
                assert(bs.take(j + 1) =~= bs.take(j as int).push(b));
            }
            j = j + 1;
        }
        assert(bs.take(m as int) =~= bs);
        assert(buf@ =~= mirror_bytes(echo_records(self.echoes@), self.block_resonance@));
        buf
    }
}

// ─── Writing ─────────────────────────────────────────

pub open spec fn echo_bytes(e: EchoRecord) -> Seq<u8> {
    le_bytes(e.timestamp_ms as nat, 8) + le_bytes(e.trigger_hash as nat, 8) + le_bytes(e.echo_hash as nat, 8)
        + le_bytes(e.similarity_bits as nat, 4) + le_bytes(e.shared_blocks.len(), 2) + words_bytes(
        e.shared_blocks,
    )
}

pub open spec fn echoes_bytes(es: Seq<EchoRecord>) -> Seq<u8>
    decreases es.len(),
{
    if es.len() == 0 {
        Seq::empty()
    } else {
        echo_bytes(es[0]) + echoes_bytes(es.drop_first())
    }
}

pub open spec fn block_bytes(b: BlockResonance) -> Seq<u8> {
    le_bytes(b.block_idx as nat, 4) + le_bytes(b.echo_count as nat, 4) + le_bytes(b.strength_bits as nat, 4)
}

pub open spec fn blocks_bytes(bs: Seq<BlockResonance>) -> Seq<u8>
    decreases bs.len(),
{
    if bs.len() == 0 {
        Seq::empty()
    } else {
        block_bytes(bs[0]) + blocks_bytes(bs.drop_first())
    }
}

/// The file of a state.
pub open spec fn mirror_bytes(es: Seq<EchoRecord>, bs: Seq<BlockResonance>) -> Seq<u8> {
    res_magic() + le_bytes(es.len(), 4) + le_bytes(bs.len(), 4) + echoes_bytes(es) + blocks_bytes(bs)
}

proof fn lemma_echoes_bytes_push(es: Seq<EchoRecord>, e: EchoRecord)
    ensures
        echoes_bytes(es.push(e)) == echoes_bytes(es) + echo_bytes(e),
    decreases es.len(),
{
    if es.len() == 0 {
        assert(es.push(e).drop_first() =~= es);
        assert(echoes_bytes(es) =~= Seq::<u8>::empty());
        assert(echoes_bytes(es.push(e)) =~= echoes_bytes(es) + echo_bytes(e));
    } else {
        lemma_echoes_bytes_push(es.drop_first(), e);
        assert(es.push(e).drop_first() =~= es.drop_first().push(e));
        assert(echoes_bytes(es.push(e)) =~= echo_bytes(es[0]) + (echoes_bytes(es.drop_first()) + echo_bytes(e)));
    }
}

proof fn lemma_blocks_bytes_push(bs: Seq<BlockResonance>, b: BlockResonance)
    ensures
        blocks_bytes(bs.push(b)) == blocks_bytes(bs) + block_bytes(b),
    decreases bs.len(),
{
    if bs.len() == 0 {
        assert(bs.push(b).drop_first() =~= bs);
        assert(blocks_bytes(bs) =~= Seq::<u8>::empty());
        assert(blocks_bytes(bs.push(b)) =~= blocks_bytes(bs) + block_bytes(b));
    } else {
        lemma_blocks_bytes_push(bs.drop_first(), b);
        assert(bs.push(b).drop_first() =~= bs.drop_first().push(b));
        assert(blocks_bytes(bs.push(b)) =~= block_bytes(bs[0]) + (blocks_bytes(bs.drop_first()) + block_bytes(b)));
    }
}

// ─── Reading back what was written ──────────────────

proof fn lemma_parse_shared(pre: Seq<u8>, s: Seq<u32>, post: Seq<u8>)
    ensures
        parse_shared(pre + words_bytes(s) + post, pre.len() as int, s.len()) == s,
        shared_end(pre + words_bytes(s) + post, pre.len() as int, s.len()) == pre.len() + 4 * s.len(),
    decreases s.len(),
{
    let d = pre + words_bytes(s) + post;
    lemma_words_layout(pre, s, post);
    if s.len() > 0 {
        let x = s[0];
        let rest = s.drop_first();
        let b = le_bytes(x as nat, 4);
        lemma_le_bytes_len(x as nat, 4);
        assert(d =~= (pre + b) + words_bytes(rest) + post);
        lemma_parse_shared(pre + b, rest, post);
        assert(u32_at(d, pre.len() + 4 * 0int) == s[0]);
        assert(seq![x] + rest =~= s);
    }
}

/// An echo is written whole: fewer than 65536 shared blocks.
pub open spec fn echo_fits(e: EchoRecord) -> bool {
    e.shared_blocks.len() < 0x1_0000
}

proof fn lemma_echo_roundtrip(pre: Seq<u8>, e: EchoRecord, post: Seq<u8>)
    requires
        echo_fits(e),
    ensures
        echo_bytes(e).len() == 30 + 4 * e.shared_blocks.len(),
        echo_at(pre + echo_bytes(e) + post, pre.len() as int) == e,
        echo_end(pre + echo_bytes(e) + post, pre.len() as int) == pre.len() + echo_bytes(e).len(),
{
    let head = le_bytes(e.timestamp_ms as nat, 8) + le_bytes(e.trigger_hash as nat, 8) + le_bytes(
        e.echo_hash as nat,
        8,
    ) + le_bytes(e.similarity_bits as nat, 4) + le_bytes(e.shared_blocks.len(), 2);
    let x = echo_bytes(e);
    let d = pre + x + post;
    lemma_pow256_values();
    lemma_le_bytes_len(e.timestamp_ms as nat, 8);
    lemma_le_bytes_len(e.trigger_hash as nat, 8);
    lemma_le_bytes_len(e.echo_hash as nat, 8);
    lemma_le_bytes_len(e.similarity_bits as nat, 4);
    lemma_le_bytes_len(e.shared_blocks.len(), 2);
    lemma_words_layout(Seq::empty(), e.shared_blocks, Seq::empty());
    assert(x =~= head + words_bytes(e.shared_blocks));
    assert(x.subrange(0, 8) =~= le_bytes(e.timestamp_ms as nat, 8));
    assert(x.subrange(8, 16) =~= le_bytes(e.trigger_hash as nat, 8));
    assert(x.subrange(16, 24) =~= le_bytes(e.echo_hash as nat, 8));
    assert(x.subrange(24, 28) =~= le_bytes(e.similarity_bits as nat, 4));
    assert(x.subrange(28, 30) =~= le_bytes(e.shared_blocks.len(), 2));
    lemma_u64_field(pre, x, post, 0, e.timestamp_ms as nat);
    lemma_u64_field(pre, x, post, 8, e.trigger_hash as nat);
    lemma_u64_field(pre, x, post, 16, e.echo_hash as nat);
    lemma_u32_field(pre, x, post, 24, e.similarity_bits as nat);
    lemma_sub(pre, x, post, 28, 30);
    lemma_le_value_of_bytes(e.shared_blocks.len(), 2);
    assert(d =~= (pre + head) + words_bytes(e.shared_blocks) + post);
    lemma_parse_shared(pre + head, e.shared_blocks, post);
}

proof fn lemma_parse_echoes(pre: Seq<u8>, es: Seq<EchoRecord>, post: Seq<u8>)
    requires
        forall|i: int| 0 <= i < es.len() ==> echo_fits(#[trigger] es[i]),
    ensures
        parse_echoes(pre + echoes_bytes(es) + post, pre.len() as int, es.len()) == es,
        echoes_end(pre + echoes_bytes(es) + post, pre.len() as int, es.len()) == pre.len() + echoes_bytes(es).len(),
        echoes_safe(pre + echoes_bytes(es) + post, pre.len() as int, es.len()),
    decreases es.len(),
{
    let d = pre + echoes_bytes(es) + post;
    if es.len() == 0 {
        assert(echoes_bytes(es) =~= Seq::<u8>::empty());
    } else {
        let e = es[0];
        let rest = es.drop_first();
        assert(echo_fits(es[0]));
        assert forall|i: int| 0 <= i < rest.len() implies echo_fits(#[trigger] rest[i]) by {
            assert(rest[i] == es[i + 1]);
        }
        lemma_echo_roundtrip(pre, e, echoes_bytes(rest) + post);
        assert(d =~= pre + echo_bytes(e) + (echoes_bytes(rest) + post));
        lemma_parse_echoes(pre + echo_bytes(e), rest, post);
        assert(d =~= (pre + echo_bytes(e)) + echoes_bytes(rest) + post);
        assert(seq![e] + rest =~= es);
    }
}

proof fn lemma_parse_blocks(pre: Seq<u8>, bs: Seq<BlockResonance>, post: Seq<u8>)
    ensures
        parse_blocks(pre + blocks_bytes(bs) + post, pre.len() as int, bs.len()) == bs,
    decreases bs.len(),
{
    let d = pre + blocks_bytes(bs) + post;
    if bs.len() > 0 {
        let b = bs[0];
        let rest = bs.drop_first();
        let x = block_bytes(b);
        lemma_le_bytes_len(b.block_idx as nat, 4);
        lemma_le_bytes_len(b.echo_count as nat, 4);
        lemma_le_bytes_len(b.strength_bits as nat, 4);
        assert(x.subrange(0, 4) =~= le_bytes(b.block_idx as nat, 4));
        assert(x.subrange(4, 8) =~= le_bytes(b.echo_count as nat, 4));
        assert(x.subrange(8, 12) =~= le_bytes(b.strength_bits as nat, 4));
        lemma_u32_field(pre, x, blocks_bytes(rest) + post, 0, b.block_idx as nat);
        lemma_u32_field(pre, x, blocks_bytes(rest) + post, 4, b.echo_count as nat);
        lemma_u32_field(pre, x, blocks_bytes(rest) + post, 8, b.strength_bits as nat);
        assert(d =~= pre + x + (blocks_bytes(rest) + post));
        lemma_parse_blocks(pre + x, rest, post);
        assert(d =~= (pre + x) + blocks_bytes(rest) + post);
        assert(seq![b] + rest =~= bs);
    }
}

/// Law: a saved mirror state loads back with the same echoes and block
/// resonance, in the same order (counts within 32 bits, echoes with fewer
/// than 65536 shared blocks, one entry per block).
pub proof fn lemma_mirror_roundtrip(es: Seq<EchoRecord>, bs: Seq<BlockResonance>)
    requires
        es.len() < 0x1_0000_0000,
        bs.len() < 0x1_0000_0000,
        forall|i: int| 0 <= i < es.len() ==> echo_fits(#[trigger] es[i]),
        keys_unique(bs),
    ensures
        mirror_safe(mirror_bytes(es, bs)),
        mirror_header_ok(mirror_bytes(es, bs)),
        mirror_echoes(mirror_bytes(es, bs)) == es,
        table(mirror_blocks(mirror_bytes(es, bs))) == bs,
{
    let d = mirror_bytes(es, bs);
    let h = res_magic() + le_bytes(es.len(), 4) + le_bytes(bs.len(), 4);
    lemma_pow256_values();
    lemma_le_bytes_len(es.len(), 4);
    lemma_le_bytes_len(bs.len(), 4);
    assert(d.subrange(0, 4) =~= res_magic());
    assert(h.subrange(4, 8) =~= le_bytes(es.len(), 4));
    assert(h.subrange(8, 12) =~= le_bytes(bs.len(), 4));
    let body = echoes_bytes(es) + blocks_bytes(bs);
    assert(d =~= Seq::<u8>::empty() + h + body);
    lemma_u32_field(Seq::empty(), h, body, 4, es.len());
    lemma_u32_field(Seq::empty(), h, body, 8, bs.len());
    lemma_parse_echoes(h, es, blocks_bytes(bs));
    assert(d =~= h + echoes_bytes(es) + blocks_bytes(bs));
    lemma_parse_blocks(h + echoes_bytes(es), bs, Seq::empty());
    assert(d =~= (h + echoes_bytes(es)) + blocks_bytes(bs) + Seq::<u8>::empty());
    lemma_table_of_unique(bs);
}


/// Whether every echo the reader starts has its whole head.
pub fn mirror_is_safe(data: &[u8]) -> (r: bool)
    ensures
        r == mirror_safe(data@),
{
    let len: usize = data.len();
    if len < 12 || data[0] != 0x52 || data[1] != 0x45 || data[2] != 0x53 || data[3] != 0x31 {
        proof {
            if len >= 12 {
                assert(data@.subrange(0, 4) != res_magic()) by {
                    if data@.subrange(0, 4) == res_magic() {
                        assert(data@.subrange(0, 4)[0] == data@[0]);
                        assert(data@.subrange(0, 4)[1] == data@[1]);
                        assert(data@.subrange(0, 4)[2] == data@[2]);
                        assert(data@.subrange(0, 4)[3] == data@[3]);
                    }
                }
            }
        }
        return true;
    }
    assert(data@.subrange(0, 4) =~= res_magic());
    let echo_count: u32 = read_u32(data, 4);
    let mut pos: usize = 12;
    let mut k: u32 = 0;
    loop
        invariant
            12 <= pos <= len,
            len == data@.len(),
            k <= echo_count,
            mirror_header_ok(data@),
            echo_count == u32_at(data@, 4),
            mirror_safe(data@) == echoes_safe(data@, pos as int, (echo_count - k) as nat),
        decreases echo_count - k,
    {
        if k == echo_count || len - pos < 28 {
            return true;
        }
        if len - pos < 30 {
            return false;
        }
        let (_e, end) = read_echo(data, pos);
        pos = end;
        k = k + 1;
    }
}

impl MirrorState {
    /// The state a file holds; `Err(())` for a file whose last echo head is
    /// cut short (one `from_bytes` cannot read).
    pub fn try_from_bytes(data: &[u8]) -> (r: Result<Option<MirrorState>, ()>)
        ensures
            r is Err <==> !mirror_safe(data@),
            r matches Ok(o) ==> (o is None <==> !mirror_header_ok(data@)),
            r matches Ok(Some(st)) ==> {
                &&& echo_records(st.echoes@) == mirror_echoes(data@)
                &&& st.block_resonance@ == table(mirror_blocks(data@))
            },
    {
        if mirror_is_safe(data) {
            Ok(MirrorState::from_bytes(data))
        } else {
            Err(())
        }
    }
}

} // verus!
