//! Mental stimulation: the activity record that keeps engagement up, and its
//! file.
//!
//! File format (`mental_stimulation.bin`): `STIM`, a version byte,
//! [f32 engagement][u64 last_activity_ms][f32 stimulation_need][u32 count],
//! then per activity [u64 timestamp_ms][f32 intensity][f32 engagement_gain]
//! [u8 len][type bytes]; little-endian, floats carried as their IEEE-754 bit
//! patterns. A reader stops at the first activity that does not fit.
use vstd::prelude::*;
use vstd::utf8::{encode_utf8, encode_utf8_decode_utf8, encode_utf8_valid_utf8};
use crate::codec::{
    le_bytes, lemma_le_bytes_len, lemma_pow256_values, lemma_u32_field, lemma_u64_field,
    push_le, read_le, u32_at, u64_at,
};
use crate::multimodal::read_u32;
use crate::text::{lossy_string, lossy_text};

verus! {

/// Bit pattern of the `f32` value 0.8, the engagement of a fresh state.
pub const INITIAL_ENGAGEMENT_BITS: u32 = 0x3f4c_cccd;

/// Bit pattern of the `f32` value 0.001, the decay per second.
pub const DECAY_RATE_BITS: u32 = 0x3a83_126f;

/// Bit pattern of the `f32` value 0.3, the engagement below which novelty is sought.
pub const NOVELTY_THRESHOLD_BITS: u32 = 0x3e99_999a;

/// One recorded activity.
#[derive(Clone, Debug, PartialEq, Eq)]
pub struct ActivityRecord {
    pub timestamp_ms: u64,
    /// "recall", "learn", "consolidate", ...
    pub activity_type: String,
    /// Bit pattern of the `f32` intensity.
    pub intensity_bits: u32,
    /// Bit pattern of the `f32` engagement gained.
    pub engagement_gain_bits: u32,
}

/// Mathematical value of an activity.
pub struct ActivityValue {
    pub timestamp_ms: u64,
    pub activity_type: Seq<char>,
    pub intensity_bits: u32,
    pub engagement_gain_bits: u32,
}

impl View for ActivityRecord {
    type V = ActivityValue;

    open spec fn view(&self) -> ActivityValue {
        ActivityValue {
            timestamp_ms: self.timestamp_ms,
            activity_type: self.activity_type@,
            intensity_bits: self.intensity_bits,
            engagement_gain_bits: self.engagement_gain_bits,
        }
    }
}

pub open spec fn activity_values(v: Seq<ActivityRecord>) -> Seq<ActivityValue> {
    v.map_values(|a: ActivityRecord| a@)
}

/// Engagement state and the activities behind it.
pub struct MentalStimulation {
    pub activity_history: Vec<ActivityRecord>,
    /// Bit pattern of the `f32` engagement level.
    pub engagement_level_bits: u32,
    /// Bit pattern of the `f32` decay rate.
    pub decay_rate_bits: u32,
    pub last_activity_ms: u64,
    /// Bit pattern of the `f32` need for stimulation.
    pub stimulation_need_bits: u32,
    /// Bit pattern of the `f32` novelty threshold.
    pub novelty_threshold_bits: u32,
}

pub open spec fn stim_magic() -> Seq<u8> {
    seq![0x53u8, 0x54u8, 0x49u8, 0x4du8]
}

pub open spec fn stim_header_ok(d: Seq<u8>) -> bool {
    d.len() >= 5 && d.subrange(0, 4) == stim_magic()
}

/// The reader does not run past the end: a `STIM` file has its 21-byte head.
pub open spec fn stim_readable(d: Seq<u8>) -> bool {
    stim_header_ok(d) ==> d.len() >= 21
}

/// An activity is read at `p` when 20 bytes remain there and its type fits.
pub open spec fn activity_ok(d: Seq<u8>, p: int) -> bool {
    p + 20 <= d.len() && p + 17 + d[p + 16] as int <= d.len()
}

pub open spec fn activity_at(d: Seq<u8>, p: int) -> ActivityValue {
    ActivityValue {
        timestamp_ms: u64_at(d, p),
        intensity_bits: u32_at(d, p + 8),
        engagement_gain_bits: u32_at(d, p + 12),
        activity_type: lossy_text(d.subrange(p + 17, p + 17 + d[p + 16] as int)),
    }
}

pub open spec fn parse_activities(d: Seq<u8>, p: int, count: nat) -> Seq<ActivityValue>
    decreases count,
{
    if count == 0 || !activity_ok(d, p) {
        Seq::empty()
    } else {
        seq![activity_at(d, p)] + parse_activities(d, p + 17 + d[p + 16] as int, (count - 1) as nat)
    }
}

/// The activities of a file, in file order.
pub open spec fn stim_activities(d: Seq<u8>) -> Seq<ActivityValue> {
    if !stim_header_ok(d) || d.len() < 25 {
        Seq::empty()
    } else {
        parse_activities(d, 25, u32_at(d, 21) as nat)
    }
}

impl MentalStimulation {
    /// A fresh state whose last activity is `now_ms`.
    pub fn new(now_ms: u64) -> (r: Self)
        ensures
            r.activity_history@.len() == 0,
            r.engagement_level_bits == INITIAL_ENGAGEMENT_BITS,
            r.decay_rate_bits == DECAY_RATE_BITS,
            r.last_activity_ms == now_ms,
            r.stimulation_need_bits == 0,
            r.novelty_threshold_bits == NOVELTY_THRESHOLD_BITS,
    {
        MentalStimulation {
            activity_history: Vec::new(),
            engagement_level_bits: INITIAL_ENGAGEMENT_BITS,
            decay_rate_bits: DECAY_RATE_BITS,
            last_activity_ms: now_ms,
            stimulation_need_bits: 0,
            novelty_threshold_bits: NOVELTY_THRESHOLD_BITS,
        }
    }

    /// The state a file holds; anything but a `STIM` file is a fresh state
    /// as of `now_ms`.
    pub fn from_bytes(data: &[u8], now_ms: u64) -> (r: Self)
        requires
            stim_readable(data@),
        ensures
            activity_values(r.activity_history@) == stim_activities(data@),
            r.decay_rate_bits == DECAY_RATE_BITS,
            r.novelty_threshold_bits == NOVELTY_THRESHOLD_BITS,
            stim_header_ok(data@) ==> {
                &&& r.engagement_level_bits == u32_at(data@, 5)
                &&& r.last_activity_ms == u64_at(data@, 9)
                &&& r.stimulation_need_bits == u32_at(data@, 17)
            },
            !stim_header_ok(data@) ==> {
                &&& r.engagement_level_bits == INITIAL_ENGAGEMENT_BITS
                &&& r.last_activity_ms == now_ms
                &&& r.stimulation_need_bits == 0
            },
    {
        let len: usize = data.len();
        if len < 5 || data[0] != 0x53 || data[1] != 0x54 || data[2] != 0x49 || data[3] != 0x4d {
            proof {
                if len >= 5 {
                    assert(data@.subrange(0, 4) != stim_magic()) by {
                        if data@.subrange(0, 4) == stim_magic() {
                            assert(data@.subrange(0, 4)[0] == data@[0]);
                            assert(data@.subrange(0, 4)[1] == data@[1]);
                            assert(data@.subrange(0, 4)[2] == data@[2]);
                            assert(data@.subrange(0, 4)[3] == data@[3]);
                        }
                    }
                }
            }
            let r = MentalStimulation::new(now_ms);
            assert(activity_values(r.activity_history@) =~= Seq::<ActivityValue>::empty());
            return r;
        }
        assert(data@.subrange(0, 4) =~= stim_magic());
        let engagement_level_bits: u32 = read_u32(data, 5);
        let last_activity_ms: u64 = read_le(data, 9, 8);
        let stimulation_need_bits: u32 = read_u32(data, 17);
        let mut history: Vec<ActivityRecord> = Vec::new();
        if len >= 25 {
            let count: u32 = read_u32(data, 21);
            let mut idx: usize = 25;
            let mut k: u32 = 0;
            let ghost all = parse_activities(data@, 25, count as nat);
            assert(activity_values(history@) + all =~= all);
            loop
                invariant
                    25 <= idx <= len,
                    len == data@.len(),
                    k <= count,
                    all == parse_activities(data@, 25, count as nat),
                    all == activity_values(history@) + parse_activities(data@, idx as int, (count - k) as nat),
                ensures
                    activity_values(history@) == all,
                decreases count - k,
            {
                if k == count || len - idx < 20 {
                    assert(parse_activities(data@, idx as int, (count - k) as nat) =~= Seq::<ActivityValue>::empty());
                    assert(activity_values(history@) + Seq::<ActivityValue>::empty() =~= activity_values(history@));
                    break;
                }
                let timestamp_ms: u64 = read_le(data, idx, 8);
                let intensity_bits: u32 = read_u32(data, idx + 8);
                let engagement_gain_bits: u32 = read_u32(data, idx + 12);
                let l: usize = data[idx + 16] as usize;
                if len - idx - 17 < l {
                    assert(parse_activities(data@, idx as int, (count - k) as nat) =~= Seq::<ActivityValue>::empty());
                    assert(activity_values(history@) + Seq::<ActivityValue>::empty() =~= activity_values(history@));
                    break;
                }
                let activity_type = lossy_string(vstd::slice::slice_subrange(data, idx + 17, idx + 17 + l));
                let a = ActivityRecord { timestamp_ms, activity_type, intensity_bits, engagement_gain_bits };
                let ghost av = a@;
                assert(av == activity_at(data@, idx as int));
                let ghost next = parse_activities(data@, idx + 17 + l, (count - k - 1) as nat);
                let ghost prev = activity_values(history@);
                history.push(a);
                assert(activity_values(history@) =~= prev.push(av));
                assert(prev + (seq![av] + next) =~= activity_values(history@) + next);
                idx = idx + 17 + l;
                k = k + 1;
            }
        } else {
            assert(activity_values(history@) =~= Seq::<ActivityValue>::empty());
        }
        MentalStimulation {
            activity_history: history,
            engagement_level_bits,
            decay_rate_bits: DECAY_RATE_BITS,
            last_activity_ms,
            stimulation_need_bits,
            novelty_threshold_bits: NOVELTY_THRESHOLD_BITS,
        }
    }

    /// The file of this state. The activity count is written as `u32` and a
    /// type's byte length as `u8`, each keeping its low bytes.
    pub fn to_bytes(&self) -> (r: Vec<u8>)
        ensures
            r@ == stim_bytes(
                self.engagement_level_bits,
                self.last_activity_ms,
                self.stimulation_need_bits,
                activity_values(self.activity_history@),
            ),
    {
        let mut buf: Vec<u8> = Vec::new();
        buf.push(0x53);
        buf.push(0x54);
        buf.push(0x49);
        buf.push(0x4d);
        buf.push(1);
        push_le(&mut buf, self.engagement_level_bits as u64, 4);
        push_le(&mut buf, self.last_activity_ms, 8);
        push_le(&mut buf, self.stimulation_need_bits as u64, 4);
        push_le(&mut buf, self.activity_history.len() as u64, 4);
        let ghost b0 = buf@;
        let ghost av = activity_values(self.activity_history@);
        let n: usize = self.activity_history.len();
        let mut i: usize = 0;
        assert(av.take(0) =~= Seq::<ActivityValue>::empty());
        while i < n
            invariant
                i <= n,
                n == self.activity_history@.len(),
                av == activity_values(self.activity_history@),
                buf@ == b0 + activities_bytes(av.take(i as int)),
            decreases n - i,
        {
            let a = &self.activity_history[i];
            let ghost b = buf@;
            push_le(&mut buf, a.timestamp_ms, 8);
            push_le(&mut buf, a.intensity_bits as u64, 4);
            push_le(&mut buf, a.engagement_gain_bits as u64, 4);
            let bytes: &[u8] = a.activity_type.as_str().as_bytes();
            let l: usize = bytes.len();
            push_le(&mut buf, l as u64, 1);
            let ghost b1 = buf@;
            let mut j: usize = 0;
            while j < l
                invariant
                    j <= l,
                    l == bytes@.len(),
                    buf@ =~= b1 + bytes@.take(j as int),
                decreases l - j,
            {
                buf.push(bytes[j]);
                j = j + 1;
            }
            assert(bytes@.take(l as int) =~= bytes@);
            assert(buf@ =~= b + activity_bytes(av[i as int]));
            proof {
                lemma_activities_bytes_push(av.take(i as int), av[i as int]);
                assert(av.take(i + 1) =~= av.take(i as int).push(av[i as int]));
            }
            i = i + 1;
        }
        assert(av.take(n as int) =~= av);
        assert(buf@ =~= stim_bytes(
            self.engagement_level_bits,
            self.last_activity_ms,
            self.stimulation_need_bits,
            activity_values(self.activity_history@),
        ));
        buf
    }
}

// ─── Writing ─────────────────────────────────────────

pub open spec fn activity_bytes(a: ActivityValue) -> Seq<u8> {
    le_bytes(a.timestamp_ms as nat, 8) + le_bytes(a.intensity_bits as nat, 4) + le_bytes(
        a.engagement_gain_bits as nat,
        4,
    ) + le_bytes(encode_utf8(a.activity_type).len(), 1) + encode_utf8(a.activity_type)
}

pub open spec fn activities_bytes(s: Seq<ActivityValue>) -> Seq<u8>
    decreases s.len(),
{
    if s.len() == 0 {
        Seq::empty()
    } else {
        activity_bytes(s[0]) + activities_bytes(s.drop_first())
    }
}

/// The file of a state.
pub open spec fn stim_bytes(engagement: u32, last: u64, need: u32, acts: Seq<ActivityValue>) -> Seq<u8> {
    stim_magic() + seq![1u8] + le_bytes(engagement as nat, 4) + le_bytes(last as nat, 8) + le_bytes(
        need as nat,
        4,
    ) + le_bytes(acts.len(), 4) + activities_bytes(acts)
}

proof fn lemma_activities_bytes_push(s: Seq<ActivityValue>, a: ActivityValue)
    ensures
        activities_bytes(s.push(a)) == activities_bytes(s) + activity_bytes(a),
    decreases s.len(),
{
    if s.len() == 0 {
        assert(s.push(a).drop_first() =~= s);
        assert(activities_bytes(s) =~= Seq::<u8>::empty());
        assert(activities_bytes(s.push(a)) =~= activities_bytes(s) + activity_bytes(a));
    } else {
        lemma_activities_bytes_push(s.drop_first(), a);
        assert(s.push(a).drop_first() =~= s.drop_first().push(a));
        assert(activities_bytes(s.push(a)) =~= activity_bytes(s[0]) + (activities_bytes(s.drop_first())
            + activity_bytes(a)));
    }
}

// ─── Reading back what was written ──────────────────

/// An activity is written whole: its type within 255 bytes.
pub open spec fn activity_fits(a: ActivityValue) -> bool {
    encode_utf8(a.activity_type).len() < 256
}

proof fn lemma_activity_roundtrip(pre: Seq<u8>, a: ActivityValue, post: Seq<u8>)
    requires
        activity_fits(a),
        activity_bytes(a).len() + post.len() >= 20,
    ensures
        activity_bytes(a).len() == 17 + encode_utf8(a.activity_type).len(),
        activity_ok(pre + activity_bytes(a) + post, pre.len() as int),
        activity_at(pre + activity_bytes(a) + post, pre.len() as int) == a,
        (pre + activity_bytes(a) + post)[pre.len() as int + 16] as int == encode_utf8(a.activity_type).len(),
{
    broadcast use encode_utf8_valid_utf8, encode_utf8_decode_utf8;

    let t = encode_utf8(a.activity_type);
    let x = activity_bytes(a);
    let d = pre + x + post;
    let at = pre.len() as int;
    lemma_pow256_values();
    lemma_le_bytes_len(a.timestamp_ms as nat, 8);
    lemma_le_bytes_len(a.intensity_bits as nat, 4);
    lemma_le_bytes_len(a.engagement_gain_bits as nat, 4);
    lemma_le_bytes_len(t.len(), 1);
    assert(x.subrange(0, 8) =~= le_bytes(a.timestamp_ms as nat, 8));
    assert(x.subrange(8, 12) =~= le_bytes(a.intensity_bits as nat, 4));
    assert(x.subrange(12, 16) =~= le_bytes(a.engagement_gain_bits as nat, 4));
    lemma_u64_field(pre, x, post, 0, a.timestamp_ms as nat);
    lemma_u32_field(pre, x, post, 8, a.intensity_bits as nat);
    lemma_u32_field(pre, x, post, 12, a.engagement_gain_bits as nat);
    assert(le_bytes(t.len(), 1)[0] as int == t.len()) by {
        reveal_with_fuel(le_bytes, 2);
    }
    assert(d[at + 16] == x[16]);
    assert(x[16] == le_bytes(t.len(), 1)[0]);
    assert(d.subrange(at + 17, at + 17 + t.len() as int) =~= t);
}

proof fn lemma_parse_activities(pre: Seq<u8>, s: Seq<ActivityValue>, post: Seq<u8>)
    requires
        forall|i: int| 0 <= i < s.len() ==> activity_fits(#[trigger] s[i]),
        s.len() == 0 || activity_bytes(s.last()).len() + post.len() >= 20,
    ensures
        parse_activities(pre + activities_bytes(s) + post, pre.len() as int, s.len()) == s,
    decreases s.len(),
{
    let d = pre + activities_bytes(s) + post;
    if s.len() > 0 {
        let a = s[0];
        let rest = s.drop_first();
        assert(activity_fits(s[0]));
        assert forall|i: int| 0 <= i < rest.len() implies activity_fits(#[trigger] rest[i]) by {
            assert(rest[i] == s[i + 1]);
        }
        if rest.len() > 0 {
            assert(rest.last() == s.last());
            assert(activities_bytes(rest) == activity_bytes(rest[0]) + activities_bytes(rest.drop_first()));
            lemma_le_bytes_len(rest[0].timestamp_ms as nat, 8);
            lemma_le_bytes_len(rest[0].intensity_bits as nat, 4);
            lemma_le_bytes_len(rest[0].engagement_gain_bits as nat, 4);
            lemma_le_bytes_len(encode_utf8(rest[0].activity_type).len(), 1);
        } else {
            assert(s.last() == a);
            assert(activities_bytes(rest) =~= Seq::<u8>::empty());
        }
        lemma_activity_roundtrip(pre, a, activities_bytes(rest) + post);
        assert(d =~= pre + activity_bytes(a) + (activities_bytes(rest) + post));
        lemma_parse_activities(pre + activity_bytes(a), rest, post);
        assert(d =~= (pre + activity_bytes(a)) + activities_bytes(rest) + post);
        assert(seq![a] + rest =~= s);
    }
}

/// Law: a saved state loads back with the same engagement, last activity,
/// need and activities, in order, when each activity type fits in 255 bytes,
/// there are fewer than 2^32 activities, and the last one takes at least 20
/// bytes (the reader's look-ahead).
pub proof fn lemma_stim_roundtrip(engagement: u32, last: u64, need: u32, acts: Seq<ActivityValue>)
    requires
        acts.len() < 0x1_0000_0000,
        forall|i: int| 0 <= i < acts.len() ==> activity_fits(#[trigger] acts[i]),
        acts.len() == 0 || activity_bytes(acts.last()).len() >= 20,
    ensures
        stim_readable(stim_bytes(engagement, last, need, acts)),
        stim_header_ok(stim_bytes(engagement, last, need, acts)),
        u32_at(stim_bytes(engagement, last, need, acts), 5) == engagement,
        u64_at(stim_bytes(engagement, last, need, acts), 9) == last,
        u32_at(stim_bytes(engagement, last, need, acts), 17) == need,
        stim_activities(stim_bytes(engagement, last, need, acts)) == acts,
{
    let d = stim_bytes(engagement, last, need, acts);
    let h = stim_magic() + seq![1u8] + le_bytes(engagement as nat, 4) + le_bytes(last as nat, 8) + le_bytes(
        need as nat,
        4,
    ) + le_bytes(acts.len(), 4);
    lemma_pow256_values();
    lemma_le_bytes_len(engagement as nat, 4);
    lemma_le_bytes_len(last as nat, 8);
    lemma_le_bytes_len(need as nat, 4);
    lemma_le_bytes_len(acts.len(), 4);
    let body = activities_bytes(acts);
    assert(d =~= Seq::<u8>::empty() + h + body);
    assert(d.subrange(0, 4) =~= stim_magic());
    assert(h.subrange(5, 9) =~= le_bytes(engagement as nat, 4));
    assert(h.subrange(9, 17) =~= le_bytes(last as nat, 8));
    assert(h.subrange(17, 21) =~= le_bytes(need as nat, 4));
    assert(h.subrange(21, 25) =~= le_bytes(acts.len(), 4));
    lemma_u32_field(Seq::empty(), h, body, 5, engagement as nat);
    lemma_u64_field(Seq::empty(), h, body, 9, last as nat);
    lemma_u32_field(Seq::empty(), h, body, 17, need as nat);
    lemma_u32_field(Seq::empty(), h, body, 21, acts.len());
    lemma_parse_activities(h, acts, Seq::empty());
    assert(d =~= h + body + Seq::<u8>::empty());
}

} // verus!
