//! Inner narrative: the state the system tells itself after each interaction.
//!
//! File format (`narrative.bin`, `NAR1`): [u64 timestamp_ms][u64 session_count]
//! [21 × f32 emotion][u16 n][n bytes of UTF-8 narrative], little-endian; the
//! floats are carried as their IEEE-754 bit patterns.
use vstd::prelude::*;
use vstd::utf8::{encode_utf8, encode_utf8_decode_utf8, encode_utf8_valid_utf8};
use crate::codec::{
    le_bytes, lemma_le_bytes_len, lemma_le_value_of_bytes, lemma_pow256_values, lemma_sub,
    lemma_u64_field, lemma_words_bytes_push, lemma_words_layout, push_le, read_le, u16_at, u32_at,
    u64_at, words_bytes,
};
use crate::multimodal::{read_u16, read_u32};
use crate::text::{lossy_string, lossy_text};

verus! {

/// Longest narrative written, in bytes.
pub const MAX_NARRATIVE_BYTES: usize = 4096;

/// A snapshot of who the system is now.
pub struct NarrativeState {
    pub last_update_ms: u64,
    /// Interactions over its lifetime.
    pub session_count: u64,
    /// Bit patterns of the 21 `f32` emotion intensities.
    pub emotion_bits: [u32; 21],
    /// The latest narrative sentence.
    pub narrative: String,
}

pub open spec fn nar_magic() -> Seq<u8> {
    seq![0x4eu8, 0x41u8, 0x52u8, 0x31u8]
}

/// A file the reader takes: at least 102 bytes starting with `NAR1`.
pub open spec fn nar_header_ok(d: Seq<u8>) -> bool {
    d.len() >= 102 && d.subrange(0, 4) == nar_magic()
}

/// The reader does not run past the end: a `NAR1` file of 102 to 105 bytes
/// would make it read its emotions or length field beyond the data.
pub open spec fn nar_readable(d: Seq<u8>) -> bool {
    !(nar_header_ok(d) && d.len() < 106)
}

/// The 21 emotion values of a file.
pub open spec fn nar_emotions(d: Seq<u8>) -> Seq<u32> {
    Seq::new(21, |i: int| u32_at(d, 20 + 4 * i))
}

/// The narrative text of a file: empty when its bytes run past the end.
pub open spec fn nar_text(d: Seq<u8>) -> Seq<char> {
    let n = u16_at(d, 104) as int;
    if 106 + n <= d.len() {
        lossy_text(d.subrange(106, 106 + n))
    } else {
        Seq::empty()
    }
}

/// Bytes of the narrative that are written: at most 4096.
pub open spec fn nar_len(s: Seq<char>) -> nat {
    let n = encode_utf8(s).len();
    if n < 4096 {
        n
    } else {
        4096
    }
}

/// The file of a state.
pub open spec fn nar_bytes(ts: u64, count: u64, emotion: Seq<u32>, text: Seq<char>) -> Seq<u8> {
    nar_magic() + le_bytes(ts as nat, 8) + le_bytes(count as nat, 8) + words_bytes(emotion) + le_bytes(
        nar_len(text),
        2,
    ) + encode_utf8(text).take(nar_len(text) as int)
}

impl NarrativeState {
    /// The state before the system has spoken.
    pub fn empty() -> (r: Self)
        ensures
            r.last_update_ms == 0,
            r.session_count == 0,
            r.emotion_bits@ == Seq::new(21, |i: int| 0u32),
            r.narrative@.len() == 0,
    {
        let r = NarrativeState { last_update_ms: 0, session_count: 0, emotion_bits: [0u32; 21], narrative: String::new() };
        assert(r.emotion_bits@ =~= Seq::new(21, |i: int| 0u32));
        r
    }

    /// The state a file holds; anything but a `NAR1` file of at least 102
    /// bytes gives the empty state.
    pub fn from_bytes(data: &[u8]) -> (r: Self)
        requires
            nar_readable(data@),
        ensures
            nar_header_ok(data@) ==> {
                &&& r.last_update_ms == u64_at(data@, 4)
                &&& r.session_count == u64_at(data@, 12)
                &&& r.emotion_bits@ == nar_emotions(data@)
                &&& r.narrative@ == nar_text(data@)
            },
            !nar_header_ok(data@) ==> {
                &&& r.last_update_ms == 0
                &&& r.session_count == 0
                &&& r.emotion_bits@ == Seq::new(21, |i: int| 0u32)
                &&& r.narrative@.len() == 0
            },
    {
        let len: usize = data.len();
        if len < 102 || data[0] != 0x4e || data[1] != 0x41 || data[2] != 0x52 || data[3] != 0x31 {
            proof {
                if len >= 102 {
                    assert(data@.subrange(0, 4) != nar_magic()) by {
                        if data@.subrange(0, 4) == nar_magic() {
                            assert(data@.subrange(0, 4)[0] == data@[0]);
                            assert(data@.subrange(0, 4)[1] == data@[1]);
                            assert(data@.subrange(0, 4)[2] == data@[2]);
                            assert(data@.subrange(0, 4)[3] == data@[3]);
                        }
                    }
                }
            }
            return NarrativeState::empty();
        }
        assert(data@.subrange(0, 4) =~= nar_magic());
        let ts: u64 = read_le(data, 4, 8);
        let count: u64 = read_le(data, 12, 8);
        let mut emotion_bits: [u32; 21] = [0u32; 21];
        let mut i: usize = 0;
        while i < 21
            invariant
                i <= 21,
                len == data@.len(),
                len >= 106,
                forall|k: int| 0 <= k < i ==> emotion_bits@[k] == u32_at(data@, 20 + 4 * k),
            decreases 21 - i,
        {
            emotion_bits[i] = read_u32(data, 20 + 4 * i);
            i = i + 1;
        }
        assert(emotion_bits@ =~= nar_emotions(data@));
        let n: usize = read_u16(data, 104) as usize;
        let narrative = if len - 106 >= n {
            lossy_string(vstd::slice::slice_subrange(data, 106, 106 + n))
        } else {
            String::new()
        };
        NarrativeState { last_update_ms: ts, session_count: count, emotion_bits, narrative }
    }

    /// The file of this state; the narrative keeps its first 4096 bytes.
    pub fn to_bytes(&self) -> (r: Vec<u8>)
        ensures
            r@ == nar_bytes(self.last_update_ms, self.session_count, self.emotion_bits@, self.narrative@),
    {
        let mut buf: Vec<u8> = Vec::new();
        buf.push(0x4e);
        buf.push(0x41);
        buf.push(0x52);
        buf.push(0x31);
        push_le(&mut buf, self.last_update_ms, 8);
        push_le(&mut buf, self.session_count, 8);
        let ghost b0 = buf@;
        let ghost es = self.emotion_bits@;
        let mut i: usize = 0;
        assert(es.take(0) =~= Seq::<u32>::empty());
        while i < 21
            invariant
                i <= 21,
                es == self.emotion_bits@,
                es.len() == 21,
                buf@ == b0 + words_bytes(es.take(i as int)),
            decreases 21 - i,
        {
            push_le(&mut buf, self.emotion_bits[i] as u64, 4);
            proof {
                lemma_words_bytes_push(es.take(i as int), es[i as int]);
                assert(es.take(i + 1) =~= es.take(i as int).push(es[i as int]));
            }
            i = i + 1;
        }
        assert(es.take(21) =~= es);
        let bytes: &[u8] = self.narrative.as_str().as_bytes();
        let m: usize = bytes.len();
        let n: usize = if m < MAX_NARRATIVE_BYTES {
            m
        } else {
            MAX_NARRATIVE_BYTES
        };
        push_le(&mut buf, n as u64, 2);
        let ghost b1 = buf@;
        let mut j: usize = 0;
        while j < n
            invariant
                j <= n <= m,
                m == bytes@.len(),
                buf@ =~= b1 + bytes@.take(j as int),
            decreases n - j,
        {
            buf.push(bytes[j]);
            j = j + 1;
        }
        assert(buf@ =~= nar_bytes(self.last_update_ms, self.session_count, self.emotion_bits@, self.narrative@));
        buf
    }
}

/// Law: a saved state loads back as itself (its narrative at most 4096 bytes).
pub proof fn lemma_narrative_roundtrip(ts: u64, count: u64, emotion: Seq<u32>, text: Seq<char>)
    requires
        emotion.len() == 21,
        encode_utf8(text).len() <= 4096,
    ensures
        nar_readable(nar_bytes(ts, count, emotion, text)),
        nar_header_ok(nar_bytes(ts, count, emotion, text)),
        u64_at(nar_bytes(ts, count, emotion, text), 4) == ts,
        u64_at(nar_bytes(ts, count, emotion, text), 12) == count,
        nar_emotions(nar_bytes(ts, count, emotion, text)) == emotion,
        nar_text(nar_bytes(ts, count, emotion, text)) == text,
{
    broadcast use encode_utf8_valid_utf8, encode_utf8_decode_utf8;

    let t = encode_utf8(text);
    let d = nar_bytes(ts, count, emotion, text);
    let h = nar_magic() + le_bytes(ts as nat, 8) + le_bytes(count as nat, 8);
    let eb = words_bytes(emotion);
    lemma_pow256_values();
    lemma_le_bytes_len(ts as nat, 8);
    lemma_le_bytes_len(count as nat, 8);
    lemma_le_bytes_len(t.len(), 2);
    lemma_words_layout(h, emotion, le_bytes(t.len(), 2) + t);
    assert(t.take(t.len() as int) =~= t);
    assert(d =~= h + eb + (le_bytes(t.len(), 2) + t));
    assert(d.len() == 106 + t.len());
    assert(d.subrange(0, 4) =~= nar_magic());
    assert(h.subrange(4, 12) =~= le_bytes(ts as nat, 8));
    assert(h.subrange(12, 20) =~= le_bytes(count as nat, 8));
    lemma_u64_field(Seq::empty(), h, eb + (le_bytes(t.len(), 2) + t), 4, ts as nat);
    lemma_u64_field(Seq::empty(), h, eb + (le_bytes(t.len(), 2) + t), 12, count as nat);
    assert(Seq::<u8>::empty() + h + (eb + (le_bytes(t.len(), 2) + t)) =~= d);
    assert forall|i: int| 0 <= i < 21 implies nar_emotions(d)[i] == emotion[i] by {
        assert(u32_at(d, h.len() + 4 * i) == emotion[i]);
    }
    assert(nar_emotions(d) =~= emotion);
    let tail = le_bytes(t.len(), 2) + t;
    assert(d =~= (h + eb) + tail + Seq::<u8>::empty());
    assert(tail.subrange(0, 2) =~= le_bytes(t.len(), 2));
    lemma_sub(h + eb, tail, Seq::empty(), 0, 2);
    lemma_le_value_of_bytes(t.len(), 2);
    assert(u16_at(d, 104) == t.len());
    assert(d.subrange(106, 106 + t.len() as int) =~= t);
}

} // verus!
