//! Little-endian integer codec shared by every binary format of the library.
use vstd::prelude::*;

verus! {

/// `256^n`.
pub open spec fn pow256(n: nat) -> nat
    decreases n,
{
    if n == 0 {
        1
    } else {
        256 * pow256((n - 1) as nat)
    }
}

/// The `n` little-endian bytes of `x` (the low `n` bytes).
pub open spec fn le_bytes(x: nat, n: nat) -> Seq<u8>
    decreases n,
{
    if n == 0 {
        Seq::empty()
    } else {
        seq![(x % 256) as u8] + le_bytes(x / 256, (n - 1) as nat)
    }
}

/// The number whose little-endian bytes are `s`.
pub open spec fn le_value(s: Seq<u8>) -> nat
    decreases s.len(),
{
    if s.len() == 0 {
        0
    } else {
        s[0] as nat + 256 * le_value(s.drop_first())
    }
}

pub proof fn lemma_pow256_positive(n: nat)
    ensures
        pow256(n) >= 1,
    decreases n,
{
    if n > 0 {
        lemma_pow256_positive((n - 1) as nat);
    }
}

pub proof fn lemma_pow256_values()
    ensures
        pow256(1) == 256,
        pow256(2) == 0x1_0000,
        pow256(4) == 0x1_0000_0000,
        pow256(8) == 0x1_0000_0000_0000_0000,
{
    reveal_with_fuel(pow256, 9);
}

pub proof fn lemma_le_bytes_len(x: nat, n: nat)
    ensures
        le_bytes(x, n).len() == n,
    decreases n,
{
    if n > 0 {
        lemma_le_bytes_len(x / 256, (n - 1) as nat);
    }
}

pub proof fn lemma_le_value_bound(s: Seq<u8>)
    ensures
        le_value(s) < pow256(s.len()),
    decreases s.len(),
{
    if s.len() > 0 {
        let t = s.drop_first();
        lemma_le_value_bound(t);
        let v = le_value(t);
        let p = pow256(t.len());
        let b = s[0] as nat;
        assert(b + 256 * v < 256 * p) by (nonlinear_arith)
            requires
                v < p,
                b < 256,
        ;
    }
}

/// Decoding the encoding of `x` gives back `x` when it fits in `n` bytes.
pub proof fn lemma_le_value_of_bytes(x: nat, n: nat)
    requires
        x < pow256(n),
    ensures
        le_value(le_bytes(x, n)) == x,
    decreases n,
{
    lemma_le_bytes_len(x, n);
    if n == 0 {
    } else {
        let q = x / 256;
        let r = x % 256;
        let p = pow256((n - 1) as nat);
        assert(x == 256 * q + r && r < 256) by (nonlinear_arith)
            requires
                q == x / 256,
                r == x % 256,
        ;
        assert(q < p) by (nonlinear_arith)
            requires
                x == 256 * q + r,
                x < 256 * p,
                r >= 0,
        ;
        lemma_le_value_of_bytes(q, (n - 1) as nat);
        let s = le_bytes(x, n);
        assert(s.drop_first() =~= le_bytes(q, (n - 1) as nat));
    }
}

/// Encoding the value of a byte string gives back the byte string.
pub proof fn lemma_le_bytes_of_value(s: Seq<u8>)
    ensures
        le_bytes(le_value(s), s.len()) == s,
    decreases s.len(),
{
    if s.len() > 0 {
        let t = s.drop_first();
        lemma_le_bytes_of_value(t);
        let v = le_value(t);
        let b = s[0] as nat;
        let x = b + 256 * v;
        assert(x % 256 == b && x / 256 == v) by (nonlinear_arith)
            requires
                x == b + 256 * v,
                b < 256,
        ;
        assert(le_bytes(x, s.len()) =~= s);
    }
}

/// Appends the `n` low little-endian bytes of `x`.
pub fn push_le(buf: &mut Vec<u8>, x: u64, n: usize)
    ensures
        final(buf)@ == old(buf)@ + le_bytes(x as nat, n as nat),
{
    let ghost start = old(buf)@;
    let mut cur: u64 = x;
    let mut i: usize = 0;
    while i < n
        invariant
            i <= n,
            start + le_bytes(x as nat, n as nat) == buf@ + le_bytes(cur as nat, (n - i) as nat),
        decreases n - i,
    {
        let b: u8 = (cur % 256) as u8;
        let ghost before = buf@;
        let ghost k: nat = (n - i) as nat;
        assert(le_bytes(cur as nat, k) == seq![b] + le_bytes((cur / 256) as nat, (k - 1) as nat));
        buf.push(b);
        assert(before + le_bytes(cur as nat, k) =~= buf@ + le_bytes((cur / 256) as nat, (k - 1) as nat));
        cur = cur / 256;
        i = i + 1;
    }
    assert(le_bytes(cur as nat, 0) =~= Seq::<u8>::empty());
    assert(buf@ + Seq::<u8>::empty() =~= buf@);
}

/// Reads the `n`-byte little-endian number that starts at `off`.
pub fn read_le(data: &[u8], off: usize, n: usize) -> (r: u64)
    requires
        n <= 8,
        off + n <= data@.len(),
    ensures
        r as nat == le_value(data@.subrange(off as int, off + n)),
{
    let len: usize = data.len();
    let mut val: u64 = 0;
    let mut j: usize = n;
    proof {
        lemma_pow256_values();
        assert(data@.subrange(off + n, off + n) =~= Seq::<u8>::empty());
    }
    while j > 0
        invariant
            j <= n <= 8,
            off + n <= data@.len(),
            len == data@.len(),
            val as nat == le_value(data@.subrange(off + j, off + n)),
            pow256(8) == 0x1_0000_0000_0000_0000,
        decreases j,
    {
        let ghost tail = data@.subrange(off + j, off + n);
        let ghost s = data@.subrange(off + j - 1, off + n);
        assert(s.drop_first() =~= tail);
        proof {
            lemma_le_value_bound(tail);
            lemma_pow_mono(tail.len(), 7);
        }
        let b: u8 = data[off + (j - 1)];
        assert(val * 256 + b < 0x1_0000_0000_0000_0000) by (nonlinear_arith)
            requires
                val < pow256(tail.len()),
                pow256(tail.len()) <= pow256(7),
                pow256(8) == 256 * pow256(7),
                pow256(8) == 0x1_0000_0000_0000_0000,
                b < 256,
        ;
        val = val * 256 + b as u64;
        j = j - 1;
    }
    val
}

pub proof fn lemma_pow_mono(a: nat, b: nat)
    requires
        a <= b,
    ensures
        pow256(a) <= pow256(b),
    decreases b,
{
    if a < b {
        lemma_pow_mono(a, (b - 1) as nat);
        lemma_pow256_positive((b - 1) as nat);
    }
}

// ─── Fields of a record ─────────────────────────────

/// The `u16` stored at `p`.
pub open spec fn u16_at(d: Seq<u8>, p: int) -> u16 {
    le_value(d.subrange(p, p + 2)) as u16
}

/// The `u32` stored at `p`.
pub open spec fn u32_at(d: Seq<u8>, p: int) -> u32 {
    le_value(d.subrange(p, p + 4)) as u32
}

/// The `u64` stored at `p`.
pub open spec fn u64_at(d: Seq<u8>, p: int) -> u64 {
    le_value(d.subrange(p, p + 8)) as u64
}

/// `(pre + x + post)[pre.len() + a .. pre.len() + b] == x[a..b]`.
pub proof fn lemma_sub(pre: Seq<u8>, x: Seq<u8>, post: Seq<u8>, a: int, b: int)
    requires
        0 <= a <= b <= x.len(),
    ensures
        (pre + x + post).subrange(pre.len() + a, pre.len() + b) == x.subrange(a, b),
{
    assert((pre + x + post).subrange(pre.len() + a, pre.len() + b) =~= x.subrange(a, b));
}

pub proof fn lemma_u32_field(pre: Seq<u8>, x: Seq<u8>, post: Seq<u8>, a: int, v: nat)
    requires
        0 <= a,
        a + 4 <= x.len(),
        x.subrange(a, a + 4) == le_bytes(v, 4),
        v < 0x1_0000_0000,
    ensures
        u32_at(pre + x + post, pre.len() + a) == v,
{
    lemma_pow256_values();
    lemma_sub(pre, x, post, a, a + 4);
    lemma_le_value_of_bytes(v, 4);
}

pub proof fn lemma_u64_field(pre: Seq<u8>, x: Seq<u8>, post: Seq<u8>, a: int, v: nat)
    requires
        0 <= a,
        a + 8 <= x.len(),
        x.subrange(a, a + 8) == le_bytes(v, 8),
        v < 0x1_0000_0000_0000_0000,
    ensures
        u64_at(pre + x + post, pre.len() + a) == v,
{
    lemma_pow256_values();
    lemma_sub(pre, x, post, a, a + 8);
    lemma_le_value_of_bytes(v, 8);
}

// ─── Runs of 32-bit words ───────────────────────────

/// 32-bit words written one after another, little-endian.
pub open spec fn words_bytes(s: Seq<u32>) -> Seq<u8>
    decreases s.len(),
{
    if s.len() == 0 {
        Seq::empty()
    } else {
        le_bytes(s[0] as nat, 4) + words_bytes(s.drop_first())
    }
}

pub proof fn lemma_words_bytes_push(s: Seq<u32>, x: u32)
    ensures
        words_bytes(s.push(x)) == words_bytes(s) + le_bytes(x as nat, 4),
    decreases s.len(),
{
    if s.len() == 0 {
        assert(s.push(x).drop_first() =~= s);
        assert(words_bytes(s) =~= Seq::<u8>::empty());
        assert(words_bytes(s.push(x)) =~= words_bytes(s) + le_bytes(x as nat, 4));
    } else {
        lemma_words_bytes_push(s.drop_first(), x);
        assert(s.push(x).drop_first() =~= s.drop_first().push(x));
        assert(words_bytes(s.push(x)) =~= le_bytes(s[0] as nat, 4) + (words_bytes(s.drop_first())
            + le_bytes(x as nat, 4)));
    }
}

/// Word `i` of a written run reads back at `4 * i` from its start.
pub proof fn lemma_words_layout(pre: Seq<u8>, s: Seq<u32>, post: Seq<u8>)
    ensures
        words_bytes(s).len() == 4 * s.len(),
        forall|i: int| 0 <= i < s.len() ==> u32_at(pre + words_bytes(s) + post, pre.len() + 4 * i) == #[trigger] s[i],
    decreases s.len(),
{
    if s.len() > 0 {
        let x = s[0];
        let rest = s.drop_first();
        let b = le_bytes(x as nat, 4);
        lemma_le_bytes_len(x as nat, 4);
        lemma_words_layout(pre + b, rest, post);
        let d = pre + words_bytes(s) + post;
        assert(d =~= (pre + b) + words_bytes(rest) + post);
        assert(d =~= pre + b + (words_bytes(rest) + post));
        assert(b.subrange(0, 4) =~= b);
        lemma_u32_field(pre, b, words_bytes(rest) + post, 0, x as nat);
        assert forall|i: int| 0 <= i < s.len() implies u32_at(d, pre.len() + 4 * i) == #[trigger] s[i] by {
            if i > 0 {
                assert(rest[i - 1] == s[i]);
                assert(u32_at(d, (pre + b).len() + 4 * (i - 1)) == rest[i - 1]);
                assert((pre + b).len() + 4 * (i - 1) == pre.len() + 4 * i);
            }
        }
    } else {
        assert(words_bytes(s) =~= Seq::<u8>::empty());
    }
}

} // verus!
