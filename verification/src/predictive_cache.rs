//! Predictive cache: predictions of the next query's blocks, the hit
//! counters, and their file.
//!
//! File format (`predictive_cache.bin`, `PRC1`): [u32 prediction_count]
//! [u32 total_predictions][u32 total_hits][u32 total_misses]
//! [u32 total_partial_hits], then per prediction [u64 predicted_query_hash]
//! [f32 confidence][u32 pattern_id][u64 created_ms][u16 n][n × u32 block];
//! little-endian, the float carried as its IEEE-754 bit pattern.
use vstd::prelude::*;
use crate::codec::{
    le_bytes, lemma_le_bytes_len, lemma_le_value_of_bytes, lemma_pow256_values, lemma_sub,
    lemma_u32_field, lemma_u64_field, lemma_words_bytes_push, lemma_words_layout, push_le, read_le,
    u16_at, u32_at, u64_at, words_bytes,
};
use crate::multimodal::{read_u16, read_u32};

verus! {

/// "If the next query hash is X, these blocks are likely results."
#[derive(Clone, Debug, PartialEq, Eq)]
pub struct Prediction {
    pub predicted_query_hash: u64,
    pub blocks: Vec<u32>,
    /// Bit pattern of the `f32` confidence.
    pub confidence_bits: u32,
    pub pattern_id: u32,
    pub created_ms: u64,
}

/// Mathematical value of a prediction.
pub struct PredictionRecord {
    pub predicted_query_hash: u64,
    pub blocks: Seq<u32>,
    pub confidence_bits: u32,
    pub pattern_id: u32,
    pub created_ms: u64,
}

impl View for Prediction {
    type V = PredictionRecord;

    open spec fn view(&self) -> PredictionRecord {
        PredictionRecord {
            predicted_query_hash: self.predicted_query_hash,
            blocks: self.blocks@,
            confidence_bits: self.confidence_bits,
            pattern_id: self.pattern_id,
            created_ms: self.created_ms,
        }
    }
}

pub open spec fn prediction_records(v: Seq<Prediction>) -> Seq<PredictionRecord> {
    v.map_values(|p: Prediction| p@)
}

/// The counters kept with the predictions.
#[derive(Clone, Copy, Debug, PartialEq, Eq)]
pub struct CacheCounters {
    pub total_predictions: u32,
    pub total_hits: u32,
    pub total_misses: u32,
    pub total_partial_hits: u32,
}

/// The cache as it is stored.
pub struct PredictiveCache {
    pub predictions: Vec<Prediction>,
    pub counters: CacheCounters,
}

pub open spec fn prc_magic() -> Seq<u8> {
    seq![0x50u8, 0x52u8, 0x43u8, 0x31u8]
}

/// A file the reader takes: 24 bytes or more starting with `PRC1`.
pub open spec fn prc_header_ok(d: Seq<u8>) -> bool {
    d.len() >= 24 && d.subrange(0, 4) == prc_magic()
}

/// The blocks of the prediction at `p`, when they all fit.
pub open spec fn prediction_at(d: Seq<u8>, p: int) -> PredictionRecord {
    PredictionRecord {
        predicted_query_hash: u64_at(d, p),
        confidence_bits: u32_at(d, p + 8),
        pattern_id: u32_at(d, p + 12),
        created_ms: u64_at(d, p + 16),
        blocks: Seq::new(u16_at(d, p + 24) as nat, |i: int| u32_at(d, p + 26 + 4 * i)),
    }
}

/// A prediction is read at `p` when 22 bytes remain there and its count and
/// all its blocks fit.
pub open spec fn prediction_ok(d: Seq<u8>, p: int) -> bool {
    p + 22 <= d.len() && p + 26 <= d.len() && p + 26 + 4 * u16_at(d, p + 24) <= d.len()
}

pub open spec fn prediction_end(d: Seq<u8>, p: int) -> int {
    p + 26 + 4 * u16_at(d, p + 24)
}

/// Up to `count` predictions from `p`, until one is not read.
pub open spec fn parse_predictions(d: Seq<u8>, p: int, count: nat) -> Seq<PredictionRecord>
    decreases count,
{
    if count == 0 || !prediction_ok(d, p) {
        Seq::empty()
    } else {
        seq![prediction_at(d, p)] + parse_predictions(d, prediction_end(d, p), (count - 1) as nat)
    }
}

/// The reader does not run past the end: a prediction it starts (22 bytes
/// left) has its 24-byte head.
pub open spec fn predictions_safe(d: Seq<u8>, p: int, count: nat) -> bool
    decreases count,
{
    count == 0 || p + 22 > d.len() || (p + 24 <= d.len() && (!prediction_ok(d, p) || predictions_safe(
        d,
        prediction_end(d, p),
        (count - 1) as nat,
    )))
}

pub open spec fn prc_predictions(d: Seq<u8>) -> Seq<PredictionRecord> {
    if !prc_header_ok(d) {
        Seq::empty()
    } else {
        parse_predictions(d, 24, u32_at(d, 4) as nat)
    }
}

pub open spec fn prc_safe(d: Seq<u8>) -> bool {
    !prc_header_ok(d) || predictions_safe(d, 24, u32_at(d, 4) as nat)
}

impl PredictiveCache {
    /// An empty cache.
    pub fn new() -> (r: Self)
        ensures
            r.predictions@.len() == 0,
            r.counters == (CacheCounters { total_predictions: 0, total_hits: 0, total_misses: 0, total_partial_hits: 0 }),
    {
        PredictiveCache {
            predictions: Vec::new(),
            counters: CacheCounters { total_predictions: 0, total_hits: 0, total_misses: 0, total_partial_hits: 0 },
        }
    }

    /// The cache a file holds; anything but a `PRC1` file of at least 24
    /// bytes gives an empty one.
    pub fn from_bytes(data: &[u8]) -> (r: Self)
        requires
            prc_safe(data@),
        ensures
            prediction_records(r.predictions@) == prc_predictions(data@),
            prc_header_ok(data@) ==> r.counters == (CacheCounters {
                total_predictions: u32_at(data@, 8),
                total_hits: u32_at(data@, 12),
                total_misses: u32_at(data@, 16),
                total_partial_hits: u32_at(data@, 20),
            }),
            !prc_header_ok(data@) ==> r.counters == (CacheCounters { total_predictions: 0, total_hits: 0, total_misses: 0, total_partial_hits: 0 }),
    {
        let len: usize = data.len();
        if len < 24 || data[0] != 0x50 || data[1] != 0x52 || data[2] != 0x43 || data[3] != 0x31 {
            proof {
                if len >= 24 {
                    assert(data@.subrange(0, 4) != prc_magic()) by {
                        if data@.subrange(0, 4) == prc_magic() {
                            assert(data@.subrange(0, 4)[0] == data@[0]);
                            assert(data@.subrange(0, 4)[1] == data@[1]);
                            assert(data@.subrange(0, 4)[2] == data@[2]);
                            assert(data@.subrange(0, 4)[3] == data@[3]);
                        }
                    }
                }
            }
            let r = PredictiveCache::new();
            assert(prediction_records(r.predictions@) =~= Seq::<PredictionRecord>::empty());
            return r;
        }
        assert(data@.subrange(0, 4) =~= prc_magic());
        let count: u32 = read_u32(data, 4);
        let counters = CacheCounters {
            total_predictions: read_u32(data, 8),
            total_hits: read_u32(data, 12),
            total_misses: read_u32(data, 16),
            total_partial_hits: read_u32(data, 20),
        };
        let mut predictions: Vec<Prediction> = Vec::new();
        let mut offset: usize = 24;
        let mut k: u32 = 0;
        let ghost all = parse_predictions(data@, 24, count as nat);
        assert(prediction_records(predictions@) + all =~= all);
        loop
            invariant
                24 <= offset <= len,
                len == data@.len(),
                k <= count,
                all == prediction_records(predictions@) + parse_predictions(data@, offset as int, (count - k) as nat),
                predictions_safe(data@, offset as int, (count - k) as nat),
            ensures
                prediction_records(predictions@) == all,
            decreases count - k,
        {
            if k == count || len - offset < 22 {
                assert(parse_predictions(data@, offset as int, (count - k) as nat) =~= Seq::<PredictionRecord>::empty());
                assert(prediction_records(predictions@) + Seq::<PredictionRecord>::empty() =~= prediction_records(predictions@));
                break;
            }
            let predicted_query_hash: u64 = read_le(data, offset, 8);
            let confidence_bits: u32 = read_u32(data, offset + 8);
            let pattern_id: u32 = read_u32(data, offset + 12);
            let created_ms: u64 = read_le(data, offset + 16, 8);
            if len - offset < 26 {
                assert(parse_predictions(data@, offset as int, (count - k) as nat) =~= Seq::<PredictionRecord>::empty());
                assert(prediction_records(predictions@) + Seq::<PredictionRecord>::empty() =~= prediction_records(predictions@));
                break;
            }
            let n: usize = read_u16(data, offset + 24) as usize;
            assert(n == u16_at(data@, offset + 24));
            if len - offset - 26 < 4 * n {
                assert(parse_predictions(data@, offset as int, (count - k) as nat) =~= Seq::<PredictionRecord>::empty());
                assert(prediction_records(predictions@) + Seq::<PredictionRecord>::empty() =~= prediction_records(predictions@));
                break;
            }
            let start: usize = offset + 26;
            let mut blocks: Vec<u32> = Vec::new();
            let mut i: usize = 0;
            while i < n
                invariant
                    i <= n,
                    start + 4 * n <= len,
                    len == data@.len(),
                    blocks@.len() == i,
                    forall|j: int| 0 <= j < i ==> blocks@[j] == u32_at(data@, start + 4 * j),
                decreases n - i,
            {
                blocks.push(read_u32(data, start + 4 * i));
                i = i + 1;
            }
            let p = Prediction { predicted_query_hash, blocks, confidence_bits, pattern_id, created_ms };
            let ghost pv = p@;
            assert(pv.blocks =~= prediction_at(data@, offset as int).blocks);
            assert(pv == prediction_at(data@, offset as int));
            let ghost next = parse_predictions(data@, start + 4 * n, (count - k - 1) as nat);
            let ghost prev = prediction_records(predictions@);
            predictions.push(p);
            assert(prediction_records(predictions@) =~= prev.push(pv));
            assert(prev + (seq![pv] + next) =~= prediction_records(predictions@) + next);
            offset = start + 4 * n;
            k = k + 1;
        }
        PredictiveCache { predictions, counters }
    }

    /// The file of this cache. The prediction count is written as `u32` and
    /// a block count as `u16`, each keeping its low bytes.
    pub fn to_bytes(&self) -> (r: Vec<u8>)
        ensures
            r@ == prc_bytes(prediction_records(self.predictions@), self.counters),
    {
        let mut buf: Vec<u8> = Vec::new();
        buf.push(0x50);
        buf.push(0x52);
        buf.push(0x43);
        buf.push(0x31);
        push_le(&mut buf, self.predictions.len() as u64, 4);
        push_le(&mut buf, self.counters.total_predictions as u64, 4);
        push_le(&mut buf, self.counters.total_hits as u64, 4);
        push_le(&mut buf, self.counters.total_misses as u64, 4);
        push_le(&mut buf, self.counters.total_partial_hits as u64, 4);
        let ghost b0 = buf@;
        let ghost ps = prediction_records(self.predictions@);
        let n: usize = self.predictions.len();
        let mut i: usize = 0;
        assert(ps.take(0) =~= Seq::<PredictionRecord>::empty());
        while i < n
            invariant
                i <= n,
                n == self.predictions@.len(),
                ps == prediction_records(self.predictions@),
                buf@ == b0 + predictions_bytes(ps.take(i as int)),
            decreases n - i,
        {
            let p = &self.predictions[i];
            let ghost b = buf@;
            push_le(&mut buf, p.predicted_query_hash, 8);
            push_le(&mut buf, p.confidence_bits as u64, 4);
            push_le(&mut buf, p.pattern_id as u64, 4);
            push_le(&mut buf, p.created_ms, 8);
            let m: usize = p.blocks.len();
            push_le(&mut buf, m as u64, 2);
            let ghost b1 = buf@;
            let ghost bs = p.blocks@;
            let mut j: usize = 0;
            assert(bs.take(0) =~= Seq::<u32>::empty());
            while j < m
                invariant
                    j <= m,
                    m == bs.len(),
                    bs == p.blocks@,
                    buf@ == b1 + words_bytes(bs.take(j as int)),
                decreases m - j,
            {
                push_le(&mut buf, p.blocks[j] as u64, 4);
                proof {
                    lemma_words_bytes_push(bs.take(j as int), bs[j as int]);
                    assert(bs.take(j + 1) =~= bs.take(j as int).push(bs[j as int]));
                }
                j = j + 1;
            }
            assert(bs.take(m as int) =~= bs);
            assert(buf@ =~= b + prediction_bytes(ps[i as int]));
            proof {
                lemma_predictions_bytes_push(ps.take(i as int), ps[i as int]);
                assert(ps.take(i + 1) =~= ps.take(i as int).push(ps[i as int]));
            }
            i = i + 1;
        }
        assert(ps.take(n as int) =~= ps);
        assert(buf@ =~= prc_bytes(prediction_records(self.predictions@), self.counters));
        buf
    }
}

// ─── Writing ─────────────────────────────────────────

pub open spec fn prediction_bytes(p: PredictionRecord) -> Seq<u8> {
    le_bytes(p.predicted_query_hash as nat, 8) + le_bytes(p.confidence_bits as nat, 4) + le_bytes(
        p.pattern_id as nat,
        4,
    ) + le_bytes(p.created_ms as nat, 8) + le_bytes(p.blocks.len(), 2) + words_bytes(p.blocks)
}

pub open spec fn predictions_bytes(ps: Seq<PredictionRecord>) -> Seq<u8>
    decreases ps.len(),
{
    if ps.len() == 0 {
        Seq::empty()
    } else {
        prediction_bytes(ps[0]) + predictions_bytes(ps.drop_first())
    }
}

/// The file of a cache.
pub open spec fn prc_bytes(ps: Seq<PredictionRecord>, c: CacheCounters) -> Seq<u8> {
    prc_magic() + le_bytes(ps.len(), 4) + le_bytes(c.total_predictions as nat, 4) + le_bytes(
        c.total_hits as nat,
        4,
    ) + le_bytes(c.total_misses as nat, 4) + le_bytes(c.total_partial_hits as nat, 4) + predictions_bytes(
        ps,
    )
}

proof fn lemma_predictions_bytes_push(ps: Seq<PredictionRecord>, p: PredictionRecord)
    ensures
        predictions_bytes(ps.push(p)) == predictions_bytes(ps) + prediction_bytes(p),
    decreases ps.len(),
{
    if ps.len() == 0 {
        assert(ps.push(p).drop_first() =~= ps);
        assert(predictions_bytes(ps) =~= Seq::<u8>::empty());
        assert(predictions_bytes(ps.push(p)) =~= predictions_bytes(ps) + prediction_bytes(p));
    } else {
        lemma_predictions_bytes_push(ps.drop_first(), p);
        assert(ps.push(p).drop_first() =~= ps.drop_first().push(p));
        assert(predictions_bytes(ps.push(p)) =~= prediction_bytes(ps[0]) + (predictions_bytes(ps.drop_first())
            + prediction_bytes(p)));
    }
}

// ─── Reading back what was written ──────────────────

/// A prediction is written whole: fewer than 65536 blocks.
pub open spec fn prediction_fits(p: PredictionRecord) -> bool {
    p.blocks.len() < 0x1_0000
}

proof fn lemma_prediction_roundtrip(pre: Seq<u8>, p: PredictionRecord, post: Seq<u8>)
    requires
        prediction_fits(p),
    ensures
        prediction_bytes(p).len() == 26 + 4 * p.blocks.len(),
        prediction_ok(pre + prediction_bytes(p) + post, pre.len() as int),
        prediction_at(pre + prediction_bytes(p) + post, pre.len() as int) == p,
        prediction_end(pre + prediction_bytes(p) + post, pre.len() as int) == pre.len() + prediction_bytes(p).len(),
{
    let head = le_bytes(p.predicted_query_hash as nat, 8) + le_bytes(p.confidence_bits as nat, 4) + le_bytes(
        p.pattern_id as nat,
        4,
    ) + le_bytes(p.created_ms as nat, 8) + le_bytes(p.blocks.len(), 2);
    let x = prediction_bytes(p);
    let d = pre + x + post;
    let at = pre.len() as int;
    lemma_pow256_values();
    lemma_le_bytes_len(p.predicted_query_hash as nat, 8);
    lemma_le_bytes_len(p.confidence_bits as nat, 4);
    lemma_le_bytes_len(p.pattern_id as nat, 4);
    lemma_le_bytes_len(p.created_ms as nat, 8);
    lemma_le_bytes_len(p.blocks.len(), 2);
    assert(x =~= head + words_bytes(p.blocks));
    lemma_words_layout(pre + head, p.blocks, post);
    assert(d =~= (pre + head) + words_bytes(p.blocks) + post);
    assert(x.subrange(0, 8) =~= le_bytes(p.predicted_query_hash as nat, 8));
    assert(x.subrange(8, 12) =~= le_bytes(p.confidence_bits as nat, 4));
    assert(x.subrange(12, 16) =~= le_bytes(p.pattern_id as nat, 4));
    assert(x.subrange(16, 24) =~= le_bytes(p.created_ms as nat, 8));
    assert(x.subrange(24, 26) =~= le_bytes(p.blocks.len(), 2));
    lemma_u64_field(pre, x, post, 0, p.predicted_query_hash as nat);
    lemma_u32_field(pre, x, post, 8, p.confidence_bits as nat);
    lemma_u32_field(pre, x, post, 12, p.pattern_id as nat);
    lemma_u64_field(pre, x, post, 16, p.created_ms as nat);
    lemma_sub(pre, x, post, 24, 26);
    lemma_le_value_of_bytes(p.blocks.len(), 2);
    assert(u16_at(d, at + 24) == p.blocks.len());
    assert(prediction_at(d, at).blocks =~= p.blocks);
}

proof fn lemma_parse_predictions(pre: Seq<u8>, ps: Seq<PredictionRecord>, post: Seq<u8>)
    requires
        forall|i: int| 0 <= i < ps.len() ==> prediction_fits(#[trigger] ps[i]),
    ensures
        parse_predictions(pre + predictions_bytes(ps) + post, pre.len() as int, ps.len()) == ps,
        predictions_safe(pre + predictions_bytes(ps) + post, pre.len() as int, ps.len()),
    decreases ps.len(),
{
    let d = pre + predictions_bytes(ps) + post;
    if ps.len() > 0 {
        let p = ps[0];
        let rest = ps.drop_first();
        assert(prediction_fits(ps[0]));
        assert forall|i: int| 0 <= i < rest.len() implies prediction_fits(#[trigger] rest[i]) by {
            assert(rest[i] == ps[i + 1]);
        }
        lemma_prediction_roundtrip(pre, p, predictions_bytes(rest) + post);
        assert(d =~= pre + prediction_bytes(p) + (predictions_bytes(rest) + post));
        lemma_parse_predictions(pre + prediction_bytes(p), rest, post);
        assert(d =~= (pre + prediction_bytes(p)) + predictions_bytes(rest) + post);
        assert(seq![p] + rest =~= ps);
    }
}

/// Law: a saved cache loads back with the same predictions, in order, and
/// the same counters (for fewer than 2^32 predictions, each with fewer than
/// 65536 blocks).
pub proof fn lemma_cache_roundtrip(ps: Seq<PredictionRecord>, c: CacheCounters)
    requires
        ps.len() < 0x1_0000_0000,
        forall|i: int| 0 <= i < ps.len() ==> prediction_fits(#[trigger] ps[i]),
    ensures
        prc_safe(prc_bytes(ps, c)),
        prc_header_ok(prc_bytes(ps, c)),
        prc_predictions(prc_bytes(ps, c)) == ps,
        u32_at(prc_bytes(ps, c), 8) == c.total_predictions,
        u32_at(prc_bytes(ps, c), 12) == c.total_hits,
        u32_at(prc_bytes(ps, c), 16) == c.total_misses,
        u32_at(prc_bytes(ps, c), 20) == c.total_partial_hits,
{
    let d = prc_bytes(ps, c);
    let h = prc_magic() + le_bytes(ps.len(), 4) + le_bytes(c.total_predictions as nat, 4) + le_bytes(
        c.total_hits as nat,
        4,
    ) + le_bytes(c.total_misses as nat, 4) + le_bytes(c.total_partial_hits as nat, 4);
    lemma_pow256_values();
    lemma_le_bytes_len(ps.len(), 4);
    lemma_le_bytes_len(c.total_predictions as nat, 4);
    lemma_le_bytes_len(c.total_hits as nat, 4);
    lemma_le_bytes_len(c.total_misses as nat, 4);
    lemma_le_bytes_len(c.total_partial_hits as nat, 4);
    assert(d.subrange(0, 4) =~= prc_magic());
    assert(h.subrange(4, 8) =~= le_bytes(ps.len(), 4));
    assert(h.subrange(8, 12) =~= le_bytes(c.total_predictions as nat, 4));
    assert(h.subrange(12, 16) =~= le_bytes(c.total_hits as nat, 4));
    assert(h.subrange(16, 20) =~= le_bytes(c.total_misses as nat, 4));
    assert(h.subrange(20, 24) =~= le_bytes(c.total_partial_hits as nat, 4));
    let body = predictions_bytes(ps);
    assert(d =~= Seq::<u8>::empty() + h + body);
    lemma_u32_field(Seq::empty(), h, body, 4, ps.len());
    lemma_u32_field(Seq::empty(), h, body, 8, c.total_predictions as nat);
    lemma_u32_field(Seq::empty(), h, body, 12, c.total_hits as nat);
    lemma_u32_field(Seq::empty(), h, body, 16, c.total_misses as nat);
    lemma_u32_field(Seq::empty(), h, body, 20, c.total_partial_hits as nat);
    lemma_parse_predictions(h, ps, Seq::empty());
    assert(d =~= h + body + Seq::<u8>::empty());
}


/// Whether every prediction the reader starts has its whole head.
pub fn cache_is_safe(data: &[u8]) -> (r: bool)
    ensures
        r == prc_safe(data@),
{
    let len: usize = data.len();
    if len < 24 || data[0] != 0x50 || data[1] != 0x52 || data[2] != 0x43 || data[3] != 0x31 {
        proof {
            if len >= 24 {
                assert(data@.subrange(0, 4) != prc_magic()) by {
                    if data@.subrange(0, 4) == prc_magic() {
                        assert(data@.subrange(0, 4)[0] == data@[0]);
                        assert(data@.subrange(0, 4)[1] == data@[1]);
                        assert(data@.subrange(0, 4)[2] == data@[2]);
                        assert(data@.subrange(0, 4)[3] == data@[3]);
                    }
                }
            }
        }
        return true;
    }
    assert(data@.subrange(0, 4) =~= prc_magic());
    let count: u32 = read_u32(data, 4);
    let mut offset: usize = 24;
    let mut k: u32 = 0;
    loop
        invariant
            24 <= offset <= len,
            len == data@.len(),
            k <= count,
            prc_header_ok(data@),
            count == u32_at(data@, 4),
            prc_safe(data@) == predictions_safe(data@, offset as int, (count - k) as nat),
        decreases count - k,
    {
        if k == count || len - offset < 22 {
            return true;
        }
        if len - offset < 24 {
            return false;
        }
        if len - offset < 26 {
            return true;
        }
        let n: usize = read_u16(data, offset + 24) as usize;
        if len - offset - 26 < 4 * n {
            return true;
        }
        offset = offset + 26 + 4 * n;
        k = k + 1;
    }
}

impl PredictiveCache {
    /// The cache a file holds, or `None` for a file whose last prediction
    /// head is cut short (one `from_bytes` cannot read).
    pub fn try_from_bytes(data: &[u8]) -> (r: Option<Self>)
        ensures
            r is None <==> !prc_safe(data@),
            r matches Some(c) ==> prediction_records(c.predictions@) == prc_predictions(data@),
    {
        if cache_is_safe(data) {
            Some(PredictiveCache::from_bytes(data))
        } else {
            None
        }
    }
}

// ─── Evaluating a prediction after a recall ─────────

/// How a recall compared with the prediction made for its query.
#[derive(Clone, Copy, Debug, PartialEq, Eq, Structural)]
pub enum RecallOutcome {
    /// A majority of the predicted blocks, or three of them, came back.
    Hit,
    /// Some, but fewer, came back.
    Partial,
    /// None came back.
    Miss,
}

impl RecallOutcome {
    /// The name the outcome is reported under.
    pub fn label(&self) -> (r: &'static str)
        ensures
            r@ == match *self {
                RecallOutcome::Hit => "hit"@,
                RecallOutcome::Partial => "partial"@,
                RecallOutcome::Miss => "miss"@,
            },
    {
        match self {
            RecallOutcome::Hit => "hit",
            RecallOutcome::Partial => "partial",
            RecallOutcome::Miss => "miss",
        }
    }
}

/// How many predicted blocks (counted with repetition) are among the actual
/// results.
pub open spec fn overlap_of(predicted: Seq<u32>, actual: Seq<u32>) -> nat
    decreases predicted.len(),
{
    if predicted.len() == 0 {
        0
    } else {
        overlap_of(predicted.drop_last(), actual) + if actual.contains(predicted.last()) {
            1nat
        } else {
            0nat
        }
    }
}

/// The outcome for `overlap` of `predicted_len` predicted blocks.
pub open spec fn outcome_of(overlap: nat, predicted_len: nat) -> RecallOutcome {
    if overlap == 0 {
        RecallOutcome::Miss
    } else if overlap >= predicted_len / 2 || overlap >= 3 {
        RecallOutcome::Hit
    } else {
        RecallOutcome::Partial
    }
}

/// Law: a recall with no predicted block among its results is a miss; one
/// that returns at least half of the predicted blocks (half rounded down),
/// or three of them, is a hit; anything else (one or two blocks, fewer than
/// half rounded down) is a partial hit.
pub proof fn lemma_outcome_rule(overlap: nat, predicted_len: nat)
    ensures
        (outcome_of(overlap, predicted_len) == RecallOutcome::Miss) <==> overlap == 0,
        overlap > 0 && 2 * overlap >= predicted_len ==> outcome_of(overlap, predicted_len) == RecallOutcome::Hit,
        overlap > 0 && overlap >= predicted_len / 2 ==> outcome_of(overlap, predicted_len) == RecallOutcome::Hit,
        overlap >= 3 ==> outcome_of(overlap, predicted_len) == RecallOutcome::Hit,
        (outcome_of(overlap, predicted_len) == RecallOutcome::Partial) <==> (0 < overlap < 3 && overlap
            < predicted_len / 2),
{
}

/// Law: the overlap counts predicted blocks found among the results: it is
/// at most the number of predicted blocks, all of them when every predicted
/// block came back, and none when none did.
pub proof fn lemma_overlap_bounds(predicted: Seq<u32>, actual: Seq<u32>)
    ensures
        overlap_of(predicted, actual) <= predicted.len(),
        (forall|i: int| 0 <= i < predicted.len() ==> actual.contains(#[trigger] predicted[i]))
            ==> overlap_of(predicted, actual) == predicted.len(),
        (forall|i: int| 0 <= i < predicted.len() ==> !actual.contains(#[trigger] predicted[i]))
            ==> overlap_of(predicted, actual) == 0,
    decreases predicted.len(),
{
    if predicted.len() > 0 {
        let d = predicted.drop_last();
        assert forall|i: int| 0 <= i < d.len() implies d[i] == #[trigger] predicted[i] by {}
        lemma_overlap_bounds(d, actual);
        assert(predicted.last() == predicted[predicted.len() - 1]);
    }
}

/// `i` is the first prediction for the query hash `h`.
pub open spec fn first_for(ps: Seq<PredictionRecord>, h: u64, i: int) -> bool {
    &&& 0 <= i < ps.len()
    &&& ps[i].predicted_query_hash == h
    &&& forall|j: int| 0 <= j < i ==> ps[j].predicted_query_hash != h
}

/// The counter an outcome is counted in.
pub open spec fn counter_for(c: CacheCounters, o: RecallOutcome) -> u32 {
    match o {
        RecallOutcome::Hit => c.total_hits,
        RecallOutcome::Partial => c.total_partial_hits,
        RecallOutcome::Miss => c.total_misses,
    }
}

/// The counters after one more outcome `o`.
pub open spec fn counted(c: CacheCounters, o: RecallOutcome) -> CacheCounters {
    match o {
        RecallOutcome::Hit => CacheCounters { total_hits: (c.total_hits + 1) as u32, ..c },
        RecallOutcome::Partial => CacheCounters { total_partial_hits: (c.total_partial_hits + 1) as u32, ..c },
        RecallOutcome::Miss => CacheCounters { total_misses: (c.total_misses + 1) as u32, ..c },
    }
}

/// The outcome the first prediction for `h` would be given for `actual`.
pub open spec fn outcome_for(ps: Seq<PredictionRecord>, h: u64, actual: Seq<u32>, i: int) -> RecallOutcome {
    outcome_of(overlap_of(ps[i].blocks, actual), ps[i].blocks.len())
}

fn contains_block(v: &[u32], x: u32) -> (r: bool)
    ensures
        r == v@.contains(x),
{
    let mut i: usize = 0;
    while i < v.len()
        invariant
            i <= v.len(),
            forall|j: int| 0 <= j < i ==> v@[j] != x,
        decreases v.len() - i,
    {
        if v[i] == x {
            assert(v@[i as int] == x);
            return true;
        }
        i = i + 1;
    }
    false
}

fn count_overlap(predicted: &Vec<u32>, actual: &[u32]) -> (r: usize)
    ensures
        r == overlap_of(predicted@, actual@),
        r <= predicted@.len(),
{
    let mut n: usize = 0;
    let mut i: usize = 0;
    while i < predicted.len()
        invariant
            i <= predicted@.len(),
            n == overlap_of(predicted@.take(i as int), actual@),
            n <= i,
        decreases predicted.len() - i,
    {
        assert(predicted@.take(i + 1).drop_last() =~= predicted@.take(i as int));
        if contains_block(actual, predicted[i]) {
            n = n + 1;
        }
        i = i + 1;
    }
    assert(predicted@.take(predicted@.len() as int) =~= predicted@);
    n
}

impl CacheCounters {
    /// Counts one more outcome.
    pub fn record(&mut self, o: RecallOutcome)
        requires
            counter_for(*old(self), o) < u32::MAX,
        ensures
            *final(self) == counted(*old(self), o),
    {
        match o {
            RecallOutcome::Hit => self.total_hits = self.total_hits + 1,
            RecallOutcome::Partial => self.total_partial_hits = self.total_partial_hits + 1,
            RecallOutcome::Miss => self.total_misses = self.total_misses + 1,
        }
    }
}

impl PredictiveCache {
    /// The first prediction for `query_hash`, judged against the blocks a
    /// recall actually returned: its outcome, the overlap, and its index.
    /// `None` when no prediction was made for that query.
    pub fn assess(&self, query_hash: u64, actual: &[u32]) -> (r: Option<(RecallOutcome, usize, usize)>)
        ensures
            r is None <==> forall|j: int|
                0 <= j < self.predictions@.len() ==> #[trigger] self.predictions@[j].predicted_query_hash != query_hash,
            r matches Some((o, ov, i)) ==> {
                let ps = prediction_records(self.predictions@);
                &&& first_for(ps, query_hash, i as int)
                &&& ov == overlap_of(ps[i as int].blocks, actual@)
                &&& o == outcome_for(ps, query_hash, actual@, i as int)
            },
    {
        let n: usize = self.predictions.len();
        let mut i: usize = 0;
        while i < n
            invariant
                i <= n,
                n == self.predictions@.len(),
                forall|j: int| 0 <= j < i ==> #[trigger] self.predictions@[j].predicted_query_hash != query_hash,
            decreases n - i,
        {
            if self.predictions[i].predicted_query_hash == query_hash {
                let p = &self.predictions[i];
                let ov: usize = count_overlap(&p.blocks, actual);
                let len: usize = p.blocks.len();
                let o = if ov == 0 {
                    RecallOutcome::Miss
                } else if ov >= len / 2 || ov >= 3 {
                    RecallOutcome::Hit
                } else {
                    RecallOutcome::Partial
                };
                let ghost ps = prediction_records(self.predictions@);
                assert forall|j: int| 0 <= j < i implies ps[j].predicted_query_hash != query_hash by {
                    assert(self.predictions@[j].predicted_query_hash != query_hash);
                }
                return Some((o, ov, i));
            }
            i = i + 1;
        }
        None
    }

    /// Judges the prediction for a completed recall and counts its outcome
    /// (hit, partial or miss); `None`, with nothing counted, when no
    /// prediction was made for the query.
    pub fn evaluate(&mut self, query_hash: u64, actual: &[u32]) -> (r: Option<(RecallOutcome, usize, usize)>)
        requires
            forall|i: int| #[trigger] first_for(prediction_records(old(self).predictions@), query_hash, i)
                ==> counter_for(old(self).counters, outcome_for(prediction_records(old(self).predictions@), query_hash, actual@, i)) < u32::MAX,
        ensures
            final(self).predictions@ == old(self).predictions@,
            r is None <==> forall|j: int|
                0 <= j < old(self).predictions@.len() ==> #[trigger] old(self).predictions@[j].predicted_query_hash != query_hash,
            r is None ==> final(self).counters == old(self).counters,
            r matches Some((o, ov, i)) ==> {
                let ps = prediction_records(old(self).predictions@);
                &&& first_for(ps, query_hash, i as int)
                &&& ov == overlap_of(ps[i as int].blocks, actual@)
                &&& o == outcome_for(ps, query_hash, actual@, i as int)
                &&& final(self).counters == counted(old(self).counters, o)
            },
    {
        let r = self.assess(query_hash, actual);
        if let Some((o, _, i)) = r {
            assert(first_for(prediction_records(self.predictions@), query_hash, i as int));
            self.counters.record(o);
        }
        r
    }
}

// ─── Predicting the next query from a pattern ───────

/// The session's trail of query hashes ends with the first `k` hashes of
/// the pattern's sequence.
pub open spec fn trail_matches(session: Seq<u64>, seq: Seq<u64>, k: int) -> bool {
    &&& k <= session.len()
    &&& k <= seq.len()
    &&& forall|j: int| 0 <= j < k ==> session[session.len() - k + j] == seq[j]
}

/// The query hashes predictions are already held for.
pub open spec fn prediction_hashes(ps: Seq<PredictionRecord>) -> Seq<u64> {
    ps.map_values(|p: PredictionRecord| p.predicted_query_hash)
}

/// From prefix length `k` on, in increasing order: each `(k, seq[k])` whose
/// prefix ends the trail and whose hash is not taken yet, each one taking
/// its hash.
pub open spec fn candidates_from(session: Seq<u64>, seq: Seq<u64>, taken: Seq<u64>, k: int) -> Seq<(usize, u64)>
    decreases seq.len() - k,
{
    if k >= seq.len() || k < 0 {
        Seq::empty()
    } else if trail_matches(session, seq, k) && !taken.contains(seq[k]) {
        seq![(k as usize, seq[k])] + candidates_from(session, seq, taken.push(seq[k]), k + 1)
    } else {
        candidates_from(session, seq, taken, k + 1)
    }
}

/// Law: each candidate a pattern gives is the hash that follows a prefix
/// ending the session's trail, at that prefix's length; no candidate repeats
/// a hash already held or another candidate's; and their prefix lengths
/// increase.
pub proof fn lemma_candidates_sound(session: Seq<u64>, seq: Seq<u64>, taken: Seq<u64>, k: int)
    requires
        k >= 0,
        seq.len() <= usize::MAX,
    ensures
        ({
            let c = candidates_from(session, seq, taken, k);
            &&& forall|j: int|
                0 <= j < c.len() ==> {
                    &&& k <= (#[trigger] c[j]).0 < seq.len()
                    &&& c[j].1 == seq[c[j].0 as int]
                    &&& trail_matches(session, seq, c[j].0 as int)
                    &&& !taken.contains(c[j].1)
                }
            &&& forall|a: int, b: int| 0 <= a < b < c.len() ==> c[a].0 < c[b].0 && c[a].1 != c[b].1
        }),
    decreases seq.len() - k,
{
    if k < seq.len() {
        let h = seq[k];
        if trail_matches(session, seq, k) && !taken.contains(h) {
            let t2 = taken.push(h);
            lemma_candidates_sound(session, seq, t2, k + 1);
            let rest = candidates_from(session, seq, t2, k + 1);
            let c = candidates_from(session, seq, taken, k);
            assert(c == seq![(k as usize, h)] + rest);
            assert forall|j: int| 0 <= j < rest.len() implies !taken.contains(#[trigger] rest[j].1) && rest[j].1 != h by {
                assert(!t2.contains(rest[j].1));
                if taken.contains(rest[j].1) {
                    let q = choose|q: int| 0 <= q < taken.len() && taken[q] == rest[j].1;
                    assert(t2[q] == rest[j].1);
                }
                assert(t2[t2.len() - 1] == h);
            }
            assert forall|j: int| 0 <= j < c.len() implies {
                &&& k <= (#[trigger] c[j]).0 < seq.len()
                &&& c[j].1 == seq[c[j].0 as int]
                &&& trail_matches(session, seq, c[j].0 as int)
                &&& !taken.contains(c[j].1)
            } by {
                if j > 0 {
                    assert(c[j] == rest[j - 1]);
                } else {
                    assert(c[0] == (k as usize, h));
                    assert((k as usize) as int == k);
                }
            }
            assert forall|a: int, b: int| 0 <= a < b < c.len() implies c[a].0 < c[b].0 && c[a].1 != c[b].1 by {
                assert(c[b] == rest[b - 1]);
                if a > 0 {
                    assert(c[a] == rest[a - 1]);
                } else {
                    assert(c[0] == (k as usize, h));
                    assert((k as usize) as int == k);
                    assert(k + 1 <= rest[b - 1].0);
                }
            }
        } else {
            lemma_candidates_sound(session, seq, taken, k + 1);
            assert(candidates_from(session, seq, taken, k) == candidates_from(session, seq, taken, k + 1));
        }
    }
}

fn trail_match(session: &[u64], seq: &[u64], k: usize) -> (r: bool)
    requires
        k <= seq@.len(),
    ensures
        r == trail_matches(session@, seq@, k as int),
{
    if k > session.len() {
        return false;
    }
    let start: usize = session.len() - k;
    let mut j: usize = 0;
    while j < k
        invariant
            j <= k,
            k <= seq@.len(),
            start + k == session.len(),
            forall|t: int| 0 <= t < j ==> session@[start + t] == seq@[t],
        decreases k - j,
    {
        if session[start + j] != seq[j] {
            return false;
        }
        j = j + 1;
    }
    true
}

fn contains_hash(v: &Vec<u64>, x: u64) -> (r: bool)
    ensures
        r == v@.contains(x),
{
    let mut i: usize = 0;
    while i < v.len()
        invariant
            i <= v@.len(),
            forall|j: int| 0 <= j < i ==> v@[j] != x,
        decreases v.len() - i,
    {
        if v[i] == x {
            assert(v@[i as int] == x);
            return true;
        }
        i = i + 1;
    }
    false
}

impl PredictiveCache {
    /// The predictions a pattern's sequence gives for the next query: for
    /// each prefix length from 1 up, when the session's trail ends with that
    /// prefix, the hash that follows it, unless a prediction for that hash
    /// is already held or was given for a shorter prefix.
    pub fn prefix_candidates(&self, session: &[u64], seq: &[u64]) -> (r: Vec<(usize, u64)>)
        ensures
            r@ == candidates_from(session@, seq@, prediction_hashes(prediction_records(self.predictions@)), 1),
    {
        let ghost ps = prediction_records(self.predictions@);
        let mut taken: Vec<u64> = Vec::new();
        let n: usize = self.predictions.len();
        let mut i: usize = 0;
        while i < n
            invariant
                i <= n,
                n == self.predictions@.len(),
                ps == prediction_records(self.predictions@),
                taken@ == prediction_hashes(ps.take(i as int)),
            decreases n - i,
        {
            taken.push(self.predictions[i].predicted_query_hash);
            assert(taken@ =~= prediction_hashes(ps.take(i + 1)));
            i = i + 1;
        }
        assert(ps.take(n as int) =~= ps);
        let ghost all = candidates_from(session@, seq@, taken@, 1);
        let mut out: Vec<(usize, u64)> = Vec::new();
        let mut k: usize = 1;
        assert(out@ + all =~= all);
        while k < seq.len()
            invariant
                1 <= k,
                all == out@ + candidates_from(session@, seq@, taken@, k as int),
            decreases seq.len() - k,
        {
            let h: u64 = seq[k];
            if trail_match(session, seq, k) && !contains_hash(&taken, h) {
                let ghost rest = candidates_from(session@, seq@, taken@.push(h), k + 1);
                out.push((k, h));
                taken.push(h);
                assert(all =~= out@ + rest);
            }
            k = k + 1;
        }
        assert(candidates_from(session@, seq@, taken@, k as int) =~= Seq::<(usize, u64)>::empty());
        assert(out@ + Seq::<(usize, u64)>::empty() =~= out@);
        out
    }
}

} // verus!
