//! Narrative memory: recalls linked into episodes, their binary file, and the
//! age of an episode as shown next to it.
//!
//! Episode format (`NVM1`): [u64 timestamp_ms][u32 episode_id]
//!   [u16 t][t title bytes][u16 s][s summary bytes][u16 b][b × u32 block]
//!   [21 × f32 emotional arc], little-endian; the floats are carried as
//!   their IEEE-754 bit patterns. The file is episodes one after another.
use vstd::prelude::*;
use vstd::utf8::{decode_utf8, encode_utf8, encode_utf8_decode_utf8, encode_utf8_valid_utf8};
use crate::codec::{
    le_bytes, lemma_le_bytes_len, lemma_le_value_of_bytes, lemma_pow256_values, lemma_sub,
    lemma_u32_field, lemma_u64_field, lemma_words_bytes_push, lemma_words_layout, push_le, read_le,
    u16_at, u32_at, u64_at, words_bytes,
};
use crate::multimodal::{read_u16, read_u32};
use crate::text::{decimal, lossy_string, lossy_text, push_decimal, push_str};

verus! {

/// Longest title or summary written, in bytes.
pub const MAX_STR_LEN: usize = 512;

/// Most blocks written per episode.
pub const MAX_EPISODE_BLOCKS: usize = 50;

/// Most episodes kept in the file.
pub const MAX_EPISODES: usize = 50;

/// A story arc: recalls linked into an episode.
#[derive(Clone, Debug)]
pub struct NarrativeEpisode {
    pub timestamp_ms: u64,
    pub episode_id: u32,
    pub title: String,
    pub summary: String,
    pub block_indices: Vec<u32>,
    /// Bit patterns of the 21 `f32` emotion intensities along the episode.
    pub emotional_arc: [u32; 21],
}

/// Mathematical value of an episode.
pub struct EpisodeRecord {
    pub timestamp_ms: u64,
    pub episode_id: u32,
    pub title: Seq<char>,
    pub summary: Seq<char>,
    pub block_indices: Seq<u32>,
    pub emotional_arc: Seq<u32>,
}

impl View for NarrativeEpisode {
    type V = EpisodeRecord;

    open spec fn view(&self) -> EpisodeRecord {
        EpisodeRecord {
            timestamp_ms: self.timestamp_ms,
            episode_id: self.episode_id,
            title: self.title@,
            summary: self.summary@,
            block_indices: self.block_indices@,
            emotional_arc: self.emotional_arc@,
        }
    }
}

pub open spec fn episode_records(v: Seq<NarrativeEpisode>) -> Seq<EpisodeRecord> {
    v.map_values(|e: NarrativeEpisode| e@)
}

/// The episodes and the id the next one gets.
pub struct NarrativeMemory {
    pub episodes: Vec<NarrativeEpisode>,
    pub next_id: u32,
}

// ─── Reading one episode ────────────────────────────

pub open spec fn nvm_magic() -> Seq<u8> {
    seq![0x4eu8, 0x56u8, 0x4du8, 0x31u8]
}

/// A buffer the episode reader takes: 120 bytes or more starting with `NVM1`.
pub open spec fn ep_header_ok(x: Seq<u8>) -> bool {
    x.len() >= 120 && x.subrange(0, 4) == nvm_magic()
}

pub open spec fn ep_title_len(x: Seq<u8>) -> int {
    u16_at(x, 16) as int
}

pub open spec fn ep_summary_len(x: Seq<u8>) -> int {
    u16_at(x, 18 + ep_title_len(x)) as int
}

pub open spec fn ep_block_count(x: Seq<u8>) -> int {
    u16_at(x, 20 + ep_title_len(x) + ep_summary_len(x)) as int
}

/// Where the blocks of the episode start.
pub open spec fn ep_blocks_at(x: Seq<u8>) -> int {
    22 + ep_title_len(x) + ep_summary_len(x)
}

/// Where the emotional arc starts.
pub open spec fn ep_arc_at(x: Seq<u8>) -> int {
    ep_blocks_at(x) + 4 * ep_block_count(x)
}

/// The reader does not run past the end of the buffer: every length field
/// and the data it announces are there.
pub open spec fn ep_readable(x: Seq<u8>) -> bool {
    ep_header_ok(x) ==> {
        &&& 20 + ep_title_len(x) <= x.len()
        &&& 22 + ep_title_len(x) + ep_summary_len(x) <= x.len()
        &&& ep_arc_at(x) + 84 <= x.len()
    }
}

/// The episode at the start of a buffer.
#[verifier::opaque]
pub open spec fn episode_of(x: Seq<u8>) -> EpisodeRecord {
    let t = ep_title_len(x);
    let s = ep_summary_len(x);
    EpisodeRecord {
        timestamp_ms: u64_at(x, 4),
        episode_id: u32_at(x, 12),
        title: if t > 0 {
            lossy_text(x.subrange(18, 18 + t))
        } else {
            Seq::empty()
        },
        summary: if s > 0 {
            lossy_text(x.subrange(20 + t, 20 + t + s))
        } else {
            Seq::empty()
        },
        block_indices: Seq::new(ep_block_count(x) as nat, |i: int| u32_at(x, ep_blocks_at(x) + 4 * i)),
        emotional_arc: Seq::new(21, |i: int| u32_at(x, ep_arc_at(x) + 4 * i)),
    }
}

/// Reads `n` words from `at`.
fn read_words(data: &[u8], at: usize, n: usize) -> (r: Vec<u32>)
    requires
        at + 4 * n <= data@.len(),
    ensures
        r@ == Seq::new(n as nat, |i: int| u32_at(data@, at + 4 * i)),
{
    let len: usize = data.len();
    let mut v: Vec<u32> = Vec::new();
    let mut i: usize = 0;
    while i < n
        invariant
            i <= n,
            len == data@.len(),
            at + 4 * n <= len,
            v@.len() == i,
            forall|k: int| 0 <= k < i ==> v@[k] == u32_at(data@, at + 4 * k),
        decreases n - i,
    {
        v.push(read_u32(data, at + 4 * i));
        i = i + 1;
    }
    assert(v@ =~= Seq::new(n as nat, |i: int| u32_at(data@, at + 4 * i)));
    v
}

impl NarrativeEpisode {
    /// The episode at the start of `data`: none unless it has 120 bytes or
    /// more and starts with `NVM1`.
    pub fn from_bytes(data: &[u8]) -> (r: Option<NarrativeEpisode>)
        requires
            ep_readable(data@),
        ensures
            r is None <==> !ep_header_ok(data@),
            r matches Some(e) ==> e@ == episode_of(data@),
    {
        let len: usize = data.len();
        if len < 120 || data[0] != 0x4e || data[1] != 0x56 || data[2] != 0x4d || data[3] != 0x31 {
            proof {
                if len >= 120 {
                    assert(data@.subrange(0, 4) != nvm_magic()) by {
                        if data@.subrange(0, 4) == nvm_magic() {
                            assert(data@.subrange(0, 4)[0] == data@[0]);
                            assert(data@.subrange(0, 4)[1] == data@[1]);
                            assert(data@.subrange(0, 4)[2] == data@[2]);
                            assert(data@.subrange(0, 4)[3] == data@[3]);
                        }
                    }
                }
            }
            return None;
        }
        assert(data@.subrange(0, 4) =~= nvm_magic());
        let ts: u64 = read_le(data, 4, 8);
        let eid: u32 = read_u32(data, 12);
        let t: usize = read_u16(data, 16) as usize;
        let title = if t > 0 {
            lossy_string(vstd::slice::slice_subrange(data, 18, 18 + t))
        } else {
            String::new()
        };
        let s: usize = read_u16(data, 18 + t) as usize;
        let summary = if s > 0 {
            lossy_string(vstd::slice::slice_subrange(data, 20 + t, 20 + t + s))
        } else {
            String::new()
        };
        let b: usize = read_u16(data, 20 + t + s) as usize;
        let block_indices = read_words(data, 22 + t + s, b);
        let arc_words = read_words(data, 22 + t + s + 4 * b, 21);
        let mut emotional_arc: [u32; 21] = [0u32; 21];
        let mut i: usize = 0;
        while i < 21
            invariant
                i <= 21,
                arc_words@.len() == 21,
                forall|k: int| 0 <= k < i ==> emotional_arc@[k] == arc_words@[k],
            decreases 21 - i,
        {
            emotional_arc[i] = arc_words[i];
            i = i + 1;
        }
        assert(emotional_arc@ =~= arc_words@);
        let e = NarrativeEpisode { timestamp_ms: ts, episode_id: eid, title, summary, block_indices, emotional_arc };
        proof {
            reveal(episode_of);
        }
        assert(e@.title == episode_of(data@).title);
        assert(e@.block_indices =~= episode_of(data@).block_indices);
        assert(e@.emotional_arc =~= episode_of(data@).emotional_arc);
        Some(e)
    }

    /// The bytes of this episode. Title and summary keep their first 512
    /// bytes and the blocks their first 50.
    pub fn to_bytes(&self) -> (r: Vec<u8>)
        ensures
            r@ == episode_bytes(self@),
    {
        let mut buf: Vec<u8> = Vec::new();
        buf.push(0x4e);
        buf.push(0x56);
        buf.push(0x4d);
        buf.push(0x31);
        push_le(&mut buf, self.timestamp_ms, 8);
        push_le(&mut buf, self.episode_id as u64, 4);
        push_capped(&mut buf, self.title.as_str().as_bytes(), MAX_STR_LEN);
        push_capped(&mut buf, self.summary.as_str().as_bytes(), MAX_STR_LEN);
        let n: usize = if self.block_indices.len() < MAX_EPISODE_BLOCKS {
            self.block_indices.len()
        } else {
            MAX_EPISODE_BLOCKS
        };
        push_le(&mut buf, n as u64, 2);
        let ghost b0 = buf@;
        let ghost bs = self.block_indices@;
        let mut i: usize = 0;
        assert(bs.take(0) =~= Seq::<u32>::empty());
        while i < n
            invariant
                i <= n <= bs.len(),
                bs == self.block_indices@,
                buf@ == b0 + words_bytes(bs.take(i as int)),
            decreases n - i,
        {
            push_le(&mut buf, self.block_indices[i] as u64, 4);
            proof {
                lemma_words_bytes_push(bs.take(i as int), bs[i as int]);
                assert(bs.take(i + 1) =~= bs.take(i as int).push(bs[i as int]));
            }
            i = i + 1;
        }
        let ghost b1 = buf@;
        let ghost arc = self.emotional_arc@;
        let mut j: usize = 0;
        assert(arc.take(0) =~= Seq::<u32>::empty());
        while j < 21
            invariant
                j <= 21,
                arc == self.emotional_arc@,
                arc.len() == 21,
                buf@ == b1 + words_bytes(arc.take(j as int)),
            decreases 21 - j,
        {
            push_le(&mut buf, self.emotional_arc[j] as u64, 4);
            proof {
                lemma_words_bytes_push(arc.take(j as int), arc[j as int]);
                assert(arc.take(j + 1) =~= arc.take(j as int).push(arc[j as int]));
            }
            j = j + 1;
        }
        assert(arc.take(21) =~= arc);
        assert(buf@ =~= episode_bytes(self@));
        buf
    }
}

/// Appends at most `cap` bytes of `bytes` with their count as `u16` in front.
fn push_capped(buf: &mut Vec<u8>, bytes: &[u8], cap: usize)
    requires
        cap < 0x1_0000,
    ensures
        final(buf)@ == old(buf)@ + capped_bytes(bytes@, cap as nat),
{
    let n: usize = if bytes.len() < cap {
        bytes.len()
    } else {
        cap
    };
    push_le(buf, n as u64, 2);
    let ghost b1 = buf@;
    let mut i: usize = 0;
    while i < n
        invariant
            i <= n <= bytes@.len(),
            buf@ =~= b1 + bytes@.take(i as int),
        decreases n - i,
    {
        buf.push(bytes[i]);
        i = i + 1;
    }
}

// ─── Writing one episode ────────────────────────────

/// `b` cut to `cap` bytes, with its length as `u16` in front.
pub open spec fn capped_bytes(b: Seq<u8>, cap: nat) -> Seq<u8> {
    let n = if b.len() < cap {
        b.len()
    } else {
        cap
    };
    le_bytes(n, 2) + b.take(n as int)
}

/// The bytes of an episode.
pub open spec fn episode_bytes(e: EpisodeRecord) -> Seq<u8> {
    let nb = if e.block_indices.len() < 50 {
        e.block_indices.len()
    } else {
        50
    };
    nvm_magic() + le_bytes(e.timestamp_ms as nat, 8) + le_bytes(e.episode_id as nat, 4) + capped_bytes(
        encode_utf8(e.title),
        512,
    ) + capped_bytes(encode_utf8(e.summary), 512) + le_bytes(nb, 2) + words_bytes(
        e.block_indices.take(nb as int),
    ) + words_bytes(e.emotional_arc)
}

// ─── The episode file ───────────────────────────────

/// Bytes an episode is taken to occupy when the file is read: computed from
/// the decoded title and summary (their UTF-8 lengths, capped at 512) and
/// the block count (capped at 50).
pub open spec fn ep_size(e: EpisodeRecord) -> nat {
    let t = encode_utf8(e.title).len();
    let s = encode_utf8(e.summary).len();
    106 + (if t < 512 { t } else { 512 }) + (if s < 512 { s } else { 512 }) + 4 * (if e.block_indices.len() < 50 {
        e.block_indices.len()
    } else {
        50
    })
}

/// Where reading goes on after the episode at `pos` (at most the end).
pub open spec fn ep_next(d: Seq<u8>, pos: int) -> int {
    let next = pos + ep_size(episode_of(d.skip(pos)));
    if next > d.len() {
        d.len() as int
    } else {
        next
    }
}

/// The episodes the file reader finds from `pos`: at each position with 120
/// bytes left it reads an episode if one starts there and skips its size,
/// else it moves on by one byte.
pub open spec fn nvm_scan(d: Seq<u8>, pos: int) -> Seq<EpisodeRecord>
    decreases d.len() - pos,
{
    if pos < 0 || pos + 120 > d.len() {
        Seq::empty()
    } else if ep_header_ok(d.skip(pos)) {
        seq![episode_of(d.skip(pos))] + nvm_scan(d, ep_next(d, pos))
    } else {
        nvm_scan(d, pos + 1)
    }
}

/// Every episode the file reader meets can be read without running past the
/// end, and none has the largest id (the next id would not fit).
pub open spec fn nvm_safe(d: Seq<u8>, pos: int) -> bool
    decreases d.len() - pos,
{
    if pos < 0 || pos + 120 > d.len() {
        true
    } else if ep_header_ok(d.skip(pos)) {
        ep_readable(d.skip(pos)) && episode_of(d.skip(pos)).episode_id < u32::MAX && nvm_safe(
            d,
            ep_next(d, pos),
        )
    } else {
        nvm_safe(d, pos + 1)
    }
}

/// The id after the episodes `es` when counting starts at `n`.
pub open spec fn next_id_after(n: u32, es: Seq<EpisodeRecord>) -> u32
    decreases es.len(),
{
    if es.len() == 0 {
        n
    } else {
        next_id_after(
            if es[0].episode_id >= n {
                (es[0].episode_id + 1) as u32
            } else {
                n
            },
            es.drop_first(),
        )
    }
}

impl NarrativeMemory {
    /// The memory a file holds, with the id after the largest one read
    /// (at least 1).
    pub fn from_bytes(data: &[u8]) -> (r: NarrativeMemory)
        requires
            nvm_safe(data@, 0),
        ensures
            episode_records(r.episodes@) == nvm_scan(data@, 0),
            r.next_id == next_id_after(1, nvm_scan(data@, 0)),
    {
        let len: usize = data.len();
        let mut episodes: Vec<NarrativeEpisode> = Vec::new();
        let mut next_id: u32 = 1;
        let mut pos: usize = 0;
        let ghost all = nvm_scan(data@, 0);
        assert(episode_records(episodes@) + all =~= all);
        while len >= 120 && pos <= len - 120
            invariant
                pos <= len,
                len == data@.len(),
                all == nvm_scan(data@, 0),
                all == episode_records(episodes@) + nvm_scan(data@, pos as int),
                next_id_after(1, all) == next_id_after(next_id, nvm_scan(data@, pos as int)),
                nvm_safe(data@, pos as int),
            decreases len - pos,
        {
            let rest: &[u8] = vstd::slice::slice_subrange(data, pos, len);
            assert(rest@ =~= data@.skip(pos as int));
            match NarrativeEpisode::from_bytes(rest) {
                Some(ep) => {
                    let t: usize = ep.title.as_str().as_bytes().len();
                    let s: usize = ep.summary.as_str().as_bytes().len();
                    let size: usize = 106 + (if t < MAX_STR_LEN {
                        t
                    } else {
                        MAX_STR_LEN
                    }) + (if s < MAX_STR_LEN {
                        s
                    } else {
                        MAX_STR_LEN
                    }) + 4 * (if ep.block_indices.len() < MAX_EPISODE_BLOCKS {
                        ep.block_indices.len()
                    } else {
                        MAX_EPISODE_BLOCKS
                    });
                    let ghost e = ep@;
                    assert(size == ep_size(e));
                    let ghost next = nvm_scan(data@, ep_next(data@, pos as int));
                    assert(nvm_scan(data@, pos as int) == seq![e] + next);
                    let ghost prev_next = next_id;
                    if ep.episode_id >= next_id {
                        next_id = ep.episode_id + 1;
                    }
                    assert(next_id_after(prev_next, seq![e] + next) == next_id_after(next_id, next)) by {
                        assert((seq![e] + next).drop_first() =~= next);
                    }
                    let ghost prev = episode_records(episodes@);
                    episodes.push(ep);
                    assert(episode_records(episodes@) =~= prev.push(e));
                    assert(prev + (seq![e] + next) =~= episode_records(episodes@) + next);
                    if len - pos < size {
                        pos = len;
                    } else {
                        pos = pos + size;
                    }
                },
                None => {
                    pos = pos + 1;
                },
            }
        }
        assert(nvm_scan(data@, pos as int) =~= Seq::<EpisodeRecord>::empty());
        assert(episode_records(episodes@) + Seq::<EpisodeRecord>::empty() =~= episode_records(episodes@));
        NarrativeMemory { episodes, next_id }
    }

    /// The file of this memory: its last 50 episodes, one after another.
    pub fn to_bytes(&self) -> (r: Vec<u8>)
        ensures
            r@ == episodes_bytes(last_episodes(episode_records(self.episodes@))),
    {
        let n: usize = self.episodes.len();
        let start: usize = if n > MAX_EPISODES {
            n - MAX_EPISODES
        } else {
            0
        };
        let ghost es = episode_records(self.episodes@);
        let ghost kept = last_episodes(es);
        assert(kept =~= es.skip(start as int));
        let mut buf: Vec<u8> = Vec::new();
        let mut i: usize = start;
        assert(kept.take(0) =~= Seq::<EpisodeRecord>::empty());
        while i < n
            invariant
                start <= i <= n,
                n == self.episodes@.len(),
                es == episode_records(self.episodes@),
                kept == es.skip(start as int),
                buf@ == episodes_bytes(kept.take(i - start)),
            decreases n - i,
        {
            let b = self.episodes[i].to_bytes();
            let ghost prev = buf@;
            buf.append(&mut b.clone());
            proof {
                assert(kept[i - start] == es[i as int]);
                lemma_episodes_bytes_push(kept.take(i - start), kept[i - start]);
                assert(kept.take(i + 1 - start) =~= kept.take(i - start).push(kept[i - start]));
            }
            i = i + 1;
        }
        assert(kept.take(n - start) =~= kept);
        buf
    }
}

/// The last 50 of `es`.
pub open spec fn last_episodes(es: Seq<EpisodeRecord>) -> Seq<EpisodeRecord> {
    if es.len() > 50 {
        es.skip(es.len() - 50)
    } else {
        es
    }
}

pub open spec fn episodes_bytes(es: Seq<EpisodeRecord>) -> Seq<u8>
    decreases es.len(),
{
    if es.len() == 0 {
        Seq::empty()
    } else {
        episode_bytes(es[0]) + episodes_bytes(es.drop_first())
    }
}

proof fn lemma_episodes_bytes_push(es: Seq<EpisodeRecord>, e: EpisodeRecord)
    ensures
        episodes_bytes(es.push(e)) == episodes_bytes(es) + episode_bytes(e),
    decreases es.len(),
{
    if es.len() == 0 {
        assert(es.push(e).drop_first() =~= es);
        assert(episodes_bytes(es) =~= Seq::<u8>::empty());
        assert(episodes_bytes(es.push(e)) =~= episodes_bytes(es) + episode_bytes(e));
    } else {
        lemma_episodes_bytes_push(es.drop_first(), e);
        assert(es.push(e).drop_first() =~= es.drop_first().push(e));
        assert(episodes_bytes(es.push(e)) =~= episode_bytes(es[0]) + (episodes_bytes(es.drop_first())
            + episode_bytes(e)));
    }
}

// ─── Reading back what was written ──────────────────

/// An episode is written whole: title and summary within 512 bytes, at most
/// 50 blocks, and an arc of 21 values.
pub open spec fn ep_fits(e: EpisodeRecord) -> bool {
    &&& encode_utf8(e.title).len() <= 512
    &&& encode_utf8(e.summary).len() <= 512
    &&& e.block_indices.len() <= 50
    &&& e.emotional_arc.len() == 21
}

proof fn lemma_encode_empty(s: Seq<char>)
    requires
        encode_utf8(s).len() == 0,
    ensures
        s == Seq::<char>::empty(),
{
    broadcast use encode_utf8_decode_utf8;

    assert(encode_utf8(s) =~= Seq::<u8>::empty());
    assert(decode_utf8(Seq::<u8>::empty()) =~= Seq::<char>::empty());
}

/// The prefix of an episode's bytes before its blocks.
pub open spec fn ep_head(e: EpisodeRecord) -> Seq<u8> {
    let nb = if e.block_indices.len() < 50 {
        e.block_indices.len()
    } else {
        50
    };
    nvm_magic() + le_bytes(e.timestamp_ms as nat, 8) + le_bytes(e.episode_id as nat, 4) + capped_bytes(
        encode_utf8(e.title),
        512,
    ) + capped_bytes(encode_utf8(e.summary), 512) + le_bytes(nb, 2)
}

proof fn lemma_u16_at(pre: Seq<u8>, v: nat, post: Seq<u8>)
    requires
        v < 0x1_0000,
    ensures
        u16_at(pre + le_bytes(v, 2) + post, pre.len() as int) == v,
{
    lemma_pow256_values();
    lemma_le_bytes_len(v, 2);
    assert(le_bytes(v, 2).subrange(0, 2) =~= le_bytes(v, 2));
    lemma_sub(pre, le_bytes(v, 2), post, 0, 2);
    lemma_le_value_of_bytes(v, 2);
}

/// The length fields of a written episode read back.
#[verifier::spinoff_prover]
proof fn lemma_ep_lengths(e: EpisodeRecord, rest: Seq<u8>)
    requires
        ep_fits(e),
    ensures
        ({
            let x = episode_bytes(e) + rest;
            &&& ep_head(e).len() == 22 + encode_utf8(e.title).len() + encode_utf8(e.summary).len()
            &&& episode_bytes(e) == ep_head(e) + words_bytes(e.block_indices) + words_bytes(e.emotional_arc)
            &&& ep_title_len(x) == encode_utf8(e.title).len()
            &&& ep_summary_len(x) == encode_utf8(e.summary).len()
            &&& ep_block_count(x) == e.block_indices.len()
            &&& x.subrange(18, 18 + encode_utf8(e.title).len() as int) == encode_utf8(e.title)
            &&& x.subrange(20 + encode_utf8(e.title).len() as int, 20 + encode_utf8(e.title).len() + encode_utf8(e.summary).len() as int) == encode_utf8(e.summary)
        }),
{
    let tb = encode_utf8(e.title);
    let sb = encode_utf8(e.summary);
    let t = tb.len();
    let s = sb.len();
    let nb = e.block_indices.len();
    let x = episode_bytes(e) + rest;
    lemma_le_bytes_len(e.timestamp_ms as nat, 8);
    lemma_le_bytes_len(e.episode_id as nat, 4);
    lemma_le_bytes_len(t, 2);
    lemma_le_bytes_len(s, 2);
    lemma_le_bytes_len(nb, 2);
    assert(tb.take(t as int) =~= tb);
    assert(sb.take(s as int) =~= sb);
    assert(e.block_indices.take(nb as int) =~= e.block_indices);
    let h = nvm_magic() + le_bytes(e.timestamp_ms as nat, 8) + le_bytes(e.episode_id as nat, 4);
    assert(ep_head(e) =~= h + le_bytes(t, 2) + tb + le_bytes(s, 2) + sb + le_bytes(nb, 2));
    assert(episode_bytes(e) =~= ep_head(e) + words_bytes(e.block_indices) + words_bytes(e.emotional_arc));
    let q1 = h + le_bytes(t, 2) + tb;
    let q2 = q1 + le_bytes(s, 2) + sb;
    assert(x =~= h + le_bytes(t, 2) + x.skip(18));
    lemma_u16_at(h, t, x.skip(18));
    assert(x =~= q1 + le_bytes(s, 2) + x.skip(20 + t as int));
    lemma_u16_at(q1, s, x.skip(20 + t as int));
    assert(x =~= q2 + le_bytes(nb, 2) + x.skip(22 + t + s as int));
    lemma_u16_at(q2, nb, x.skip(22 + t + s as int));
    assert(x.subrange(18, 18 + t as int) =~= tb);
    assert(x.subrange(20 + t as int, 20 + t + s as int) =~= sb);
}

/// Law: an episode written whole (title and summary within 512 bytes, at
/// most 50 blocks, an arc of 21 values) reads back as itself, whatever
/// follows it, once the buffer reaches the reader's 120 bytes; the reader
/// takes it to occupy exactly its bytes. (`from_bytes` gives `None` for a
/// buffer under 120 bytes, so a short episode alone does not come back.)
#[verifier::spinoff_prover]
#[verifier::rlimit(40)]
pub proof fn lemma_episode_roundtrip(e: EpisodeRecord, rest: Seq<u8>)
    requires
        ep_fits(e),
        episode_bytes(e).len() + rest.len() >= 120,
    ensures
        ep_header_ok(episode_bytes(e) + rest),
        ep_readable(episode_bytes(e) + rest),
        episode_of(episode_bytes(e) + rest) == e,
        ep_size(e) == episode_bytes(e).len(),
{
    let tb = encode_utf8(e.title);
    let sb = encode_utf8(e.summary);
    let t = tb.len();
    let s = sb.len();
    let x = episode_bytes(e) + rest;
    lemma_ep_lengths(e, rest);
    let h = ep_head(e);
    let p2 = h + words_bytes(e.block_indices);
    lemma_words_layout(h, e.block_indices, words_bytes(e.emotional_arc) + rest);
    lemma_words_layout(p2, e.emotional_arc, rest);
    assert(x =~= h + words_bytes(e.block_indices) + (words_bytes(e.emotional_arc) + rest));
    assert(x =~= p2 + words_bytes(e.emotional_arc) + rest);
    assert(x.subrange(0, 4) =~= nvm_magic());
    // fixed fields
    let f = nvm_magic() + le_bytes(e.timestamp_ms as nat, 8) + le_bytes(e.episode_id as nat, 4);
    lemma_pow256_values();
    lemma_le_bytes_len(e.timestamp_ms as nat, 8);
    lemma_le_bytes_len(e.episode_id as nat, 4);
    assert(f.subrange(4, 12) =~= le_bytes(e.timestamp_ms as nat, 8));
    assert(f.subrange(12, 16) =~= le_bytes(e.episode_id as nat, 4));
    assert(x =~= Seq::<u8>::empty() + f + x.skip(16));
    lemma_u64_field(Seq::empty(), f, x.skip(16), 4, e.timestamp_ms as nat);
    lemma_u32_field(Seq::empty(), f, x.skip(16), 12, e.episode_id as nat);
    assert(h.len() == ep_blocks_at(x));
    assert(p2.len() == ep_arc_at(x));
    // strings
    assert(lossy_text(tb) == e.title && lossy_text(sb) == e.summary) by {
        broadcast use encode_utf8_valid_utf8, encode_utf8_decode_utf8;
    }
    if t == 0 {
        lemma_encode_empty(e.title);
    }
    if s == 0 {
        lemma_encode_empty(e.summary);
    }
    reveal(episode_of);
    let r = episode_of(x);
    assert(r.title == e.title);
    assert(r.summary == e.summary);
    assert(r.block_indices =~= e.block_indices);
    assert(r.emotional_arc =~= e.emotional_arc);
}

proof fn lemma_episode_len(e: EpisodeRecord)
    requires
        ep_fits(e),
    ensures
        episode_bytes(e).len() == 106 + encode_utf8(e.title).len() + encode_utf8(e.summary).len() + 4
            * e.block_indices.len(),
{
    let tb = encode_utf8(e.title);
    let sb = encode_utf8(e.summary);
    lemma_le_bytes_len(e.timestamp_ms as nat, 8);
    lemma_le_bytes_len(e.episode_id as nat, 4);
    lemma_le_bytes_len(tb.len(), 2);
    lemma_le_bytes_len(sb.len(), 2);
    lemma_le_bytes_len(e.block_indices.len(), 2);
    lemma_words_layout(Seq::empty(), e.block_indices, Seq::empty());
    lemma_words_layout(Seq::empty(), e.emotional_arc, Seq::empty());
    assert(e.block_indices.take(e.block_indices.len() as int) =~= e.block_indices);
}

/// Episodes written after `pre` are found again by the reader, each where it
/// was written.
#[verifier::spinoff_prover]
#[verifier::rlimit(40)]
proof fn lemma_scan_episodes(pre: Seq<u8>, es: Seq<EpisodeRecord>)
    requires
        forall|i: int| 0 <= i < es.len() ==> ep_fits(#[trigger] es[i]) && es[i].episode_id < u32::MAX,
        es.len() == 0 || episode_bytes(es.last()).len() >= 120,
    ensures
        nvm_scan(pre + episodes_bytes(es), pre.len() as int) == es,
        nvm_safe(pre + episodes_bytes(es), pre.len() as int),
    decreases es.len(),
{
    let d = pre + episodes_bytes(es);
    let p = pre.len() as int;
    if es.len() == 0 {
        assert(episodes_bytes(es) =~= Seq::<u8>::empty());
        assert(d =~= pre);
    } else {
        let e = es[0];
        let rest = es.drop_first();
        assert(ep_fits(es[0]) && es[0].episode_id < u32::MAX);
        assert forall|i: int| 0 <= i < rest.len() implies ep_fits(#[trigger] rest[i]) && rest[i].episode_id < u32::MAX by {
            assert(rest[i] == es[i + 1]);
        }
        if rest.len() > 0 {
            assert(rest.last() == es.last());
            assert(episodes_bytes(rest) == episode_bytes(rest[0]) + episodes_bytes(rest.drop_first()));
            assert(ep_fits(rest[0]));
            lemma_episode_len(rest[0]);
        } else {
            assert(es.last() == e);
            assert(episodes_bytes(rest) =~= Seq::<u8>::empty());
        }
        assert(episode_bytes(e).len() + episodes_bytes(rest).len() >= 120);
        lemma_episode_roundtrip(e, episodes_bytes(rest));
        assert(d.skip(p) =~= episode_bytes(e) + episodes_bytes(rest));
        assert(d =~= (pre + episode_bytes(e)) + episodes_bytes(rest));
        assert(ep_next(d, p) == p + episode_bytes(e).len());
        lemma_scan_episodes(pre + episode_bytes(e), rest);
        assert(seq![e] + rest =~= es);
    }
}

/// Law: the file of at most 50 episodes, each written whole and with an id
/// below the largest, whose last episode takes at least 120 bytes, reads
/// back as the same episodes, in order.
pub proof fn lemma_nvm_roundtrip(es: Seq<EpisodeRecord>)
    requires
        es.len() <= 50,
        forall|i: int| 0 <= i < es.len() ==> ep_fits(#[trigger] es[i]) && es[i].episode_id < u32::MAX,
        es.len() == 0 || episode_bytes(es.last()).len() >= 120,
    ensures
        nvm_safe(episodes_bytes(last_episodes(es)), 0),
        nvm_scan(episodes_bytes(last_episodes(es)), 0) == es,
{
    assert(last_episodes(es) == es);
    lemma_scan_episodes(Seq::empty(), es);
    assert(Seq::<u8>::empty() + episodes_bytes(es) =~= episodes_bytes(es));
}

// ─── Age display ────────────────────────────────────

/// `"{days}d {hours}h {mins}m ago"` for a number of milliseconds.
pub open spec fn age_text(ts_ms: u64) -> Seq<char> {
    let secs = ts_ms / 1000;
    decimal((secs / 86400) as nat) + "d "@ + decimal(((secs % 86400) / 3600) as nat) + "h "@
        + decimal(((secs % 3600) / 60) as nat) + "m ago"@
}

/// Days, hours and minutes of a millisecond span.
pub fn chrono_str(ts_ms: u64) -> (r: String)
    ensures
        r@ == age_text(ts_ms),
{
    let secs = ts_ms / 1000;
    let days = secs / 86400;
    let hours = (secs % 86400) / 3600;
    let mins = (secs % 3600) / 60;
    let mut s = String::new();
    push_decimal(&mut s, days);
    push_str(&mut s, "d ");
    push_decimal(&mut s, hours);
    push_str(&mut s, "h ");
    push_decimal(&mut s, mins);
    push_str(&mut s, "m ago");
    s
}


/// Whether the episode reader can read `data` without running past its end.
pub fn episode_is_readable(data: &[u8]) -> (r: bool)
    ensures
        r == ep_readable(data@),
{
    let len: usize = data.len();
    if len < 120 || data[0] != 0x4e || data[1] != 0x56 || data[2] != 0x4d || data[3] != 0x31 {
        proof {
            if len >= 120 {
                assert(data@.subrange(0, 4) != nvm_magic()) by {
                    if data@.subrange(0, 4) == nvm_magic() {
                        assert(data@.subrange(0, 4)[0] == data@[0]);
                        assert(data@.subrange(0, 4)[1] == data@[1]);
                        assert(data@.subrange(0, 4)[2] == data@[2]);
                        assert(data@.subrange(0, 4)[3] == data@[3]);
                    }
                }
            }
        }
        return true;
    }
    assert(data@.subrange(0, 4) =~= nvm_magic());
    let t: usize = read_u16(data, 16) as usize;
    if len - 20 < t {
        return false;
    }
    let s: usize = read_u16(data, 18 + t) as usize;
    if len - 20 - t < 2 || len - 22 - t < s {
        return false;
    }
    let b: usize = read_u16(data, 20 + t + s) as usize;
    len - 22 - t - s >= 4 * b + 84
}

/// Whether the file reader meets only episodes it can read and none with
/// the largest id.
pub fn nvm_is_safe(data: &[u8]) -> (r: bool)
    ensures
        r == nvm_safe(data@, 0),
{
    let len: usize = data.len();
    let mut pos: usize = 0;
    while len >= 120 && pos <= len - 120
        invariant
            pos <= len,
            len == data@.len(),
            nvm_safe(data@, 0) == nvm_safe(data@, pos as int),
        decreases len - pos,
    {
        let rest: &[u8] = vstd::slice::slice_subrange(data, pos, len);
        assert(rest@ =~= data@.skip(pos as int));
        if !episode_is_readable(rest) {
            return false;
        }
        match NarrativeEpisode::from_bytes(rest) {
            Some(ep) => {
                if ep.episode_id == 0xffff_ffff {
                    return false;
                }
                let t: usize = ep.title.as_str().as_bytes().len();
                let s: usize = ep.summary.as_str().as_bytes().len();
                let size: usize = 106 + (if t < MAX_STR_LEN {
                    t
                } else {
                    MAX_STR_LEN
                }) + (if s < MAX_STR_LEN {
                    s
                } else {
                    MAX_STR_LEN
                }) + 4 * (if ep.block_indices.len() < MAX_EPISODE_BLOCKS {
                    ep.block_indices.len()
                } else {
                    MAX_EPISODE_BLOCKS
                });
                assert(size == ep_size(ep@));
                if len - pos < size {
                    pos = len;
                } else {
                    pos = pos + size;
                }
            },
            None => {
                pos = pos + 1;
            },
        }
    }
    true
}

impl NarrativeMemory {
    /// The memory a file holds, or `None` for a file the reader cannot take
    /// (an episode cut short, or one with the largest id).
    pub fn try_from_bytes(data: &[u8]) -> (r: Option<NarrativeMemory>)
        ensures
            r is None <==> !nvm_safe(data@, 0),
            r matches Some(m) ==> episode_records(m.episodes@) == nvm_scan(data@, 0) && m.next_id
                == next_id_after(1, nvm_scan(data@, 0)),
    {
        if nvm_is_safe(data) {
            Some(NarrativeMemory::from_bytes(data))
        } else {
            None
        }
    }
}

} // verus!
