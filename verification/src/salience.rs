//! Salience network: which topics are held back from the inner narrative,
//! and the compact topic identity of a text.
//!
//! File format (`salience.bin`): `SAL1`, [u32 count], then per inhibition
//!   [u64 topic_hash][f32 remaining_strength][u64 created_ms] (20 bytes),
//! little-endian; the float is carried as its IEEE-754 bit pattern.
use vstd::prelude::*;
use vstd::utf8::encode_utf8;
use vstd::wrapping::u64_specs;
use crate::codec::{
    le_bytes, le_value, lemma_le_bytes_len, lemma_pow256_values, lemma_u32_field, lemma_u64_field,
    push_le, read_le, u32_at, u64_at,
};
use crate::multimodal::read_u32;

verus! {

/// Starting state of the topic hash.
pub const TOPIC_SEED: u64 = 0x9e3779b97f4a7c15;

/// Multiplier of the topic hash.
pub const TOPIC_MUL: u64 = 0x517cc1b727220a95;

/// Topic hash state after the bytes of `s`, taken in chunks of up to eight
/// bytes, each read as a little-endian word: `h = h * MUL + word` (wrapping).
pub open spec fn topic_fold(h: u64, s: Seq<u8>) -> u64
    decreases s.len(),
{
    if s.len() == 0 {
        h
    } else {
        let c = if s.len() < 8 {
            s.len()
        } else {
            8
        };
        topic_fold(
            u64_specs::wrapping_add(
                u64_specs::wrapping_mul(h, TOPIC_MUL),
                le_value(s.take(c as int)) as u64,
            ),
            s.skip(c as int),
        )
    }
}

/// A topic held back for a while.
#[derive(Clone, Copy, Debug, PartialEq, Eq)]
pub struct InhibitionEntry {
    pub topic_hash: u64,
    /// Bit pattern of the `f32` remaining strength.
    pub remaining_bits: u32,
    pub created_ms: u64,
}

/// The inhibition mask of the salience network.
pub struct SalienceState {
    pub inhibitions: Vec<InhibitionEntry>,
}

/// The inhibition whose 20 bytes start at `p`.
pub open spec fn inhibition_at(d: Seq<u8>, p: int) -> InhibitionEntry {
    InhibitionEntry { topic_hash: u64_at(d, p), remaining_bits: u32_at(d, p + 8), created_ms: u64_at(d, p + 12) }
}

/// Up to `count` inhibitions from `p`, while 20 bytes remain.
pub open spec fn parse_inhibitions(d: Seq<u8>, p: int, count: nat) -> Seq<InhibitionEntry>
    decreases count,
{
    if count == 0 || p + 20 > d.len() {
        Seq::empty()
    } else {
        seq![inhibition_at(d, p)] + parse_inhibitions(d, p + 20, (count - 1) as nat)
    }
}

pub open spec fn sal_magic() -> Seq<u8> {
    seq![0x53u8, 0x41u8, 0x4cu8, 0x31u8]
}

/// The inhibitions a file holds: none unless it starts with `SAL1` and a count.
pub open spec fn sal_inhibitions(d: Seq<u8>) -> Seq<InhibitionEntry> {
    if d.len() < 8 || d.subrange(0, 4) != sal_magic() {
        Seq::empty()
    } else {
        parse_inhibitions(d, 8, u32_at(d, 4) as nat)
    }
}

pub open spec fn inhibition_bytes(e: InhibitionEntry) -> Seq<u8> {
    le_bytes(e.topic_hash as nat, 8) + le_bytes(e.remaining_bits as nat, 4) + le_bytes(e.created_ms as nat, 8)
}

pub open spec fn inhibitions_bytes(es: Seq<InhibitionEntry>) -> Seq<u8>
    decreases es.len(),
{
    if es.len() == 0 {
        Seq::empty()
    } else {
        inhibition_bytes(es[0]) + inhibitions_bytes(es.drop_first())
    }
}

/// The file of a state: `SAL1`, the count as `u32`, the entries.
pub open spec fn sal_bytes(es: Seq<InhibitionEntry>) -> Seq<u8> {
    sal_magic() + le_bytes(es.len(), 4) + inhibitions_bytes(es)
}

proof fn lemma_inhibitions_bytes_push(es: Seq<InhibitionEntry>, e: InhibitionEntry)
    ensures
        inhibitions_bytes(es.push(e)) == inhibitions_bytes(es) + inhibition_bytes(e),
    decreases es.len(),
{
    if es.len() == 0 {
        assert(es.push(e).drop_first() =~= es);
        assert(inhibitions_bytes(es) =~= Seq::<u8>::empty());
        assert(inhibitions_bytes(es.push(e)) =~= inhibitions_bytes(es) + inhibition_bytes(e));
    } else {
        lemma_inhibitions_bytes_push(es.drop_first(), e);
        assert(es.push(e).drop_first() =~= es.drop_first().push(e));
        assert(inhibitions_bytes(es.push(e)) =~= inhibition_bytes(es[0]) + (inhibitions_bytes(
            es.drop_first(),
        ) + inhibition_bytes(e)));
    }
}

proof fn lemma_parse_inhibitions(pre: Seq<u8>, es: Seq<InhibitionEntry>, post: Seq<u8>)
    ensures
        parse_inhibitions(pre + inhibitions_bytes(es) + post, pre.len() as int, es.len()) == es,
    decreases es.len(),
{
    let d = pre + inhibitions_bytes(es) + post;
    if es.len() > 0 {
        let e = es[0];
        let rest = es.drop_first();
        let x = inhibition_bytes(e);
        lemma_le_bytes_len(e.topic_hash as nat, 8);
        lemma_le_bytes_len(e.remaining_bits as nat, 4);
        lemma_le_bytes_len(e.created_ms as nat, 8);
        assert(x.subrange(0, 8) =~= le_bytes(e.topic_hash as nat, 8));
        assert(x.subrange(8, 12) =~= le_bytes(e.remaining_bits as nat, 4));
        assert(x.subrange(12, 20) =~= le_bytes(e.created_ms as nat, 8));
        lemma_u64_field(pre, x, inhibitions_bytes(rest) + post, 0, e.topic_hash as nat);
        lemma_u32_field(pre, x, inhibitions_bytes(rest) + post, 8, e.remaining_bits as nat);
        lemma_u64_field(pre, x, inhibitions_bytes(rest) + post, 12, e.created_ms as nat);
        assert(d =~= pre + x + (inhibitions_bytes(rest) + post));
        lemma_parse_inhibitions(pre + x, rest, post);
        assert(d =~= (pre + x) + inhibitions_bytes(rest) + post);
        assert(seq![e] + rest =~= es);
    }
}

/// Law: a saved state loads back with the same inhibitions in the same order
/// (for fewer than 2^32 of them).
pub proof fn lemma_salience_roundtrip(es: Seq<InhibitionEntry>)
    requires
        es.len() < 0x1_0000_0000,
    ensures
        sal_inhibitions(sal_bytes(es)) == es,
{
    let d = sal_bytes(es);
    let h = sal_magic() + le_bytes(es.len(), 4);
    lemma_pow256_values();
    lemma_le_bytes_len(es.len(), 4);
    assert(d.subrange(0, 4) =~= sal_magic());
    assert(h.subrange(4, 8) =~= le_bytes(es.len(), 4));
    lemma_u32_field(Seq::empty(), h, inhibitions_bytes(es), 4, es.len());
    assert(Seq::<u8>::empty() + h + inhibitions_bytes(es) =~= d);
    lemma_parse_inhibitions(h, es, Seq::empty());
    assert(h + inhibitions_bytes(es) + Seq::<u8>::empty() =~= d);
}

impl SalienceState {
    /// The state a file holds (an empty one for anything that is not a
    /// `SAL1` file).
    pub fn from_bytes(data: &[u8]) -> (r: SalienceState)
        ensures
            r.inhibitions@ == sal_inhibitions(data@),
    {
        let len: usize = data.len();
        let mut inhibitions: Vec<InhibitionEntry> = Vec::new();
        if len < 8 || data[0] != 0x53 || data[1] != 0x41 || data[2] != 0x4c || data[3] != 0x31 {
            proof {
                if len >= 8 {
                    assert(data@.subrange(0, 4) != sal_magic()) by {
                        if data@.subrange(0, 4) == sal_magic() {
                            assert(data@.subrange(0, 4)[0] == data@[0]);
                            assert(data@.subrange(0, 4)[1] == data@[1]);
                            assert(data@.subrange(0, 4)[2] == data@[2]);
                            assert(data@.subrange(0, 4)[3] == data@[3]);
                        }
                    }
                }
            }
            assert(inhibitions@ =~= Seq::<InhibitionEntry>::empty());
            return SalienceState { inhibitions };
        }
        assert(data@.subrange(0, 4) =~= sal_magic());
        let count: u32 = read_u32(data, 4);
        let mut off: usize = 8;
        let mut k: u32 = 0;
        let ghost all = parse_inhibitions(data@, 8, count as nat);
        assert(inhibitions@ + all =~= all);
        loop
            invariant
                8 <= off <= len,
                len == data@.len(),
                k <= count,
                all == parse_inhibitions(data@, 8, count as nat),
                all == inhibitions@ + parse_inhibitions(data@, off as int, (count - k) as nat),
            ensures
                inhibitions@ == all,
            decreases count - k,
        {
            if k == count || len - off < 20 {
                assert(parse_inhibitions(data@, off as int, (count - k) as nat) =~= Seq::<InhibitionEntry>::empty());
                assert(inhibitions@ + Seq::<InhibitionEntry>::empty() =~= inhibitions@);
                break;
            }
            let e = InhibitionEntry {
                topic_hash: read_le(data, off, 8),
                remaining_bits: read_u32(data, off + 8),
                created_ms: read_le(data, off + 12, 8),
            };
            let ghost prev = inhibitions@;
            inhibitions.push(e);
            assert(prev + parse_inhibitions(data@, off as int, (count - k) as nat) =~= inhibitions@
                + parse_inhibitions(data@, off + 20, (count - k - 1) as nat));
            off = off + 20;
            k = k + 1;
        }
        SalienceState { inhibitions }
    }

    /// The file of this state.
    pub fn to_bytes(&self) -> (r: Vec<u8>)
        ensures
            r@ == sal_bytes(self.inhibitions@),
    {
        let mut buf: Vec<u8> = Vec::new();
        buf.push(0x53);
        buf.push(0x41);
        buf.push(0x4c);
        buf.push(0x31);
        push_le(&mut buf, self.inhibitions.len() as u64, 4);
        let ghost b0 = buf@;
        let ghost es = self.inhibitions@;
        let n: usize = self.inhibitions.len();
        let mut i: usize = 0;
        assert(es.take(0) =~= Seq::<InhibitionEntry>::empty());
        while i < n
            invariant
                i <= n,
                n == es.len(),
                es == self.inhibitions@,
                buf@ == b0 + inhibitions_bytes(es.take(i as int)),
            decreases n - i,
        {
            let e = self.inhibitions[i];
            let ghost b = buf@;
            push_le(&mut buf, e.topic_hash, 8);
            push_le(&mut buf, e.remaining_bits as u64, 4);
            push_le(&mut buf, e.created_ms, 8);
            assert(buf@ =~= b + inhibition_bytes(e));
            proof {
                lemma_inhibitions_bytes_push(es.take(i as int), e);
                assert(es.take(i + 1) =~= es.take(i as int).push(e));
            }
            i = i + 1;
        }
        assert(es.take(n as int) =~= es);
        assert(buf@ =~= sal_bytes(self.inhibitions@));
        buf
    }

    /// Compact hash of a text (usable as a topic hash).
    pub fn topic_hash(text: &str) -> (r: u64)
        ensures
            r == topic_fold(TOPIC_SEED, encode_utf8(text@)),
    {
        let bytes: &[u8] = text.as_bytes();
        let n: usize = bytes.len();
        let mut h: u64 = TOPIC_SEED;
        let mut pos: usize = 0;
        assert(bytes@.skip(0) =~= bytes@);
        while pos < n
            invariant
                pos <= n,
                n == bytes@.len(),
                topic_fold(TOPIC_SEED, bytes@) == topic_fold(h, bytes@.skip(pos as int)),
            decreases n - pos,
        {
            let c: usize = if n - pos < 8 {
                n - pos
            } else {
                8
            };
            let word: u64 = read_le(bytes, pos, c);
            let ghost rest = bytes@.skip(pos as int);
            assert(rest.take(c as int) =~= bytes@.subrange(pos as int, pos + c));
            assert(rest.skip(c as int) =~= bytes@.skip(pos + c));
            h = h.wrapping_mul(TOPIC_MUL).wrapping_add(word);
            pos = pos + c;
        }
        h
    }

}

} // verus!
