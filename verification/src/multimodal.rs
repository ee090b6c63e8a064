//! Multi-modal memory: perceptual hashes of images, their binary metadata
//! records, similarity search over them and per-modality counts.
use vstd::prelude::*;
use vstd::utf8::{encode_utf8, encode_utf8_decode_utf8, encode_utf8_valid_utf8};
use crate::codec::{
    le_bytes, le_value, lemma_le_bytes_len, lemma_le_value_bound, lemma_le_value_of_bytes,
    lemma_pow256_values, lemma_sub, lemma_u32_field, push_le, read_le, u16_at, u32_at,
};
use crate::keyed::{has_key, keys_unique, lemma_table_of_unique, lemma_upsert_unique, table, upsert, Keyed};
use crate::text::{lossy_string, lossy_text, str_eq};

verus! {

/// Bytes of an image record in the modality index (28 used, 4 padding).
pub const IMAGE_PAYLOAD_BYTES: usize = 32;

/// Bytes of an audio record in the modality index.
pub const AUDIO_PAYLOAD_BYTES: usize = 32;

#[derive(Clone, Debug, PartialEq, Eq)]
pub struct ImageMeta {
    pub width: u16,
    pub height: u16,
    pub phash: [u8; 8],
    pub color_histogram: [u8; 12],
    pub content_hash: u32,
}

/// Number of index entries of each modality.
#[derive(Clone, Debug, PartialEq, Eq)]
pub struct ModalityStats {
    pub total_entries: usize,
    pub text_count: usize,
    pub image_count: usize,
    pub audio_count: usize,
    pub structured_count: usize,
}

// ─── Perceptual hashing ─────────────────────────────

/// Sampled pixel column `col` (0..=8) of a row of width `w`.
pub open spec fn sample_x(col: nat, w: nat) -> nat {
    let x = col * w / 8;
    if x < w - 1 {
        x
    } else {
        (w - 1) as nat
    }
}

/// Sampled pixel row `row` (0..8) of an image of height `h`.
pub open spec fn sample_y(row: nat, h: nat) -> nat {
    let y = row * h / 8;
    if y < h - 1 {
        y
    } else {
        (h - 1) as nat
    }
}

/// Bit `col` of hash byte `row`: the left sample is brighter than the right one.
pub open spec fn phash_bit(pixels: Seq<u8>, w: nat, h: nat, row: nat, col: nat) -> bool {
    let y = sample_y(row, h);
    pixels[(y * w + sample_x(col, w)) as int] > pixels[(y * w + sample_x(col + 1, w)) as int]
}

/// Value of the low `n` bits of hash byte `row`.
pub open spec fn phash_bits(pixels: Seq<u8>, w: nat, h: nat, row: nat, n: nat) -> nat
    decreases n,
{
    if n == 0 {
        0
    } else {
        phash_bits(pixels, w, h, row, (n - 1) as nat) + if phash_bit(
            pixels,
            w,
            h,
            row,
            (n - 1) as nat,
        ) {
            pow2((n - 1) as nat)
        } else {
            0
        }
    }
}

pub open spec fn pow2(n: nat) -> nat
    decreases n,
{
    if n == 0 {
        1
    } else {
        2 * pow2((n - 1) as nat)
    }
}

/// The perceptual hash: all zero when the image is smaller than 2x2 or has
/// fewer pixels than `width * height`; else byte `row` holds one bit per column.
pub open spec fn phash_spec(pixels: Seq<u8>, w: nat, h: nat) -> Seq<u8> {
    if w < 2 || h < 2 || pixels.len() < w * h {
        Seq::new(8, |i: int| 0u8)
    } else {
        Seq::new(8, |i: int| phash_bits(pixels, w, h, i as nat, 8) as u8)
    }
}

proof fn lemma_phash_bits_bound(pixels: Seq<u8>, w: nat, h: nat, row: nat, n: nat)
    ensures
        phash_bits(pixels, w, h, row, n) < pow2(n),
    decreases n,
{
    if n > 0 {
        lemma_phash_bits_bound(pixels, w, h, row, (n - 1) as nat);
    }
}

/// Compute a perceptual hash (dHash-like) from row-major grayscale pixels.
pub fn compute_phash(pixels: &[u8], width: u32, height: u32) -> (r: [u8; 8])
    requires
        width < 2 || height < 2 || width * height <= 0xffff_ffff,
        width < 2 || height < 2 || pixels@.len() < width * height || (8 * width <= 0xffff_ffff && 7
            * height <= 0xffff_ffff),
    ensures
        r@ == phash_spec(pixels@, width as nat, height as nat),
{
    let mut hash: [u8; 8] = [0u8; 8];
    if width < 2 || height < 2 || pixels.len() < (width * height) as usize {
        assert(hash@ =~= phash_spec(pixels@, width as nat, height as nat));
        return hash;
    }
    let ghost w = width as nat;
    let ghost h = height as nat;
    let mut row: u32 = 0;
    while row < 8
        invariant
            row <= 8,
            width >= 2,
            height >= 2,
            w == width,
            h == height,
            width * height <= pixels@.len(),
            width * height <= 0xffff_ffff,
            8 * width <= 0xffff_ffff,
            7 * height <= 0xffff_ffff,
            forall|i: int| 0 <= i < row ==> hash@[i] == phash_bits(pixels@, w, h, i as nat, 8) as u8,
        decreases 8 - row,
    {
        assert(row * height <= 7 * height) by (nonlinear_arith)
            requires
                row < 8,
        ;
        let a: u32 = row * height / 8;
        let src_y: u32 = if a < height - 1 {
            a
        } else {
            height - 1
        };
        assert(src_y as nat == sample_y(row as nat, h));
        let mut byte: u32 = 0;
        let mut weight: u32 = 1;
        let mut col: u32 = 0;
        while col < 8
            invariant
                col <= 8,
                row < 8,
                width >= 2,
                height >= 2,
                w == width,
                h == height,
                width * height <= pixels@.len(),
                width * height <= 0xffff_ffff,
                8 * width <= 0xffff_ffff,
                src_y < height,
                src_y as nat == sample_y(row as nat, h),
                weight == pow2(col as nat),
                byte == phash_bits(pixels@, w, h, row as nat, col as nat),
            decreases 8 - col,
        {
            assert(col * width <= 8 * width && (col + 1) * width <= 8 * width) by (nonlinear_arith)
                requires
                    col < 8,
            ;
            let b1: u32 = col * width / 8;
            let src_x1: u32 = if b1 < width - 1 {
                b1
            } else {
                width - 1
            };
            let b2: u32 = (col + 1) * width / 8;
            let src_x2: u32 = if b2 < width - 1 {
                b2
            } else {
                width - 1
            };
            assert(src_x1 as nat == sample_x(col as nat, w));
            assert(src_x2 as nat == sample_x((col + 1) as nat, w));
            assert(src_y * width + width <= width * height) by (nonlinear_arith)
                requires
                    src_y < height,
            ;
            assert(src_y * width + src_x1 < width * height) by (nonlinear_arith)
                requires
                    src_y < height,
                    src_x1 < width,
            ;
            assert(src_y * width + src_x2 < width * height) by (nonlinear_arith)
                requires
                    src_y < height,
                    src_x2 < width,
            ;
            let p1: u8 = pixels[(src_y * width + src_x1) as usize];
            let p2: u8 = pixels[(src_y * width + src_x2) as usize];
            proof {
                lemma_phash_bits_bound(pixels@, w, h, row as nat, col as nat);
            }
            assert(pow2((col + 1) as nat) == 2 * pow2(col as nat));
            assert(pow2(8) == 256) by {
                reveal_with_fuel(pow2, 9);
            }
            if col < 7 {
                assert(pow2((col + 1) as nat) <= pow2(8)) by {
                    lemma_pow2_mono((col + 1) as nat, 8);
                }
            }
            if p1 > p2 {
                byte = byte + weight;
            }
            weight = weight * 2;
            col = col + 1;
        }
        proof {
            lemma_phash_bits_bound(pixels@, w, h, row as nat, 8);
            reveal_with_fuel(pow2, 9);
        }
        hash[row as usize] = byte as u8;
        row = row + 1;
    }
    assert(hash@ =~= phash_spec(pixels@, width as nat, height as nat));
    hash
}

proof fn lemma_pow2_mono(a: nat, b: nat)
    requires
        a <= b,
    ensures
        pow2(a) <= pow2(b),
    decreases b,
{
    if a < b {
        lemma_pow2_mono(a, (b - 1) as nat);
    }
}

// ─── Hamming distance ───────────────────────────────

/// Number of set bits of a byte.
pub open spec fn popcount(x: nat) -> nat
    decreases x,
{
    if x == 0 {
        0
    } else {
        x % 2 + popcount(x / 2)
    }
}

/// Hamming distance of the first `n` byte pairs.
pub open spec fn hamming_prefix(a: Seq<u8>, b: Seq<u8>, n: nat) -> nat
    decreases n,
{
    if n == 0 {
        0
    } else {
        hamming_prefix(a, b, (n - 1) as nat) + popcount((a[n - 1] ^ b[n - 1]) as nat)
    }
}

/// Hamming distance over the pairs that both byte strings have.
pub open spec fn hamming_spec(a: Seq<u8>, b: Seq<u8>) -> nat {
    hamming_prefix(
        a,
        b,
        if a.len() < b.len() {
            a.len()
        } else {
            b.len()
        },
    )
}

fn count_ones(x: u8) -> (r: u32)
    ensures
        r == popcount(x as nat),
        r <= 8,
{
    let mut v: u8 = x;
    let mut c: u32 = 0;
    let mut i: u32 = 0;
    proof {
        reveal_with_fuel(pow2, 9);
        lemma_popcount_bound(x as nat, 8);
    }
    while v != 0
        invariant
            c + popcount(v as nat) == popcount(x as nat),
            popcount(x as nat) <= 8,
        decreases v,
    {
        c = c + (v % 2) as u32;
        v = v / 2;
    }
    c
}

proof fn lemma_popcount_bound(x: nat, n: nat)
    requires
        x < pow2(n),
    ensures
        popcount(x) <= n,
    decreases n,
{
    if x > 0 {
        assert(n > 0);
        assert(x / 2 < pow2((n - 1) as nat));
        lemma_popcount_bound(x / 2, (n - 1) as nat);
    }
}

/// Hamming distance between two byte arrays (over the shorter length).
pub fn hamming_distance(a: &[u8], b: &[u8]) -> (r: u32)
    requires
        hamming_spec(a@, b@) <= 0xffff_ffff,
    ensures
        r == hamming_spec(a@, b@),
{
    let n: usize = if a.len() < b.len() {
        a.len()
    } else {
        b.len()
    };
    let mut sum: u32 = 0;
    let mut i: usize = 0;
    while i < n
        invariant
            i <= n,
            n <= a@.len(),
            n <= b@.len(),
            n == (if a@.len() < b@.len() {
                a@.len()
            } else {
                b@.len()
            }),
            sum == hamming_prefix(a@, b@, i as nat),
            hamming_prefix(a@, b@, n as nat) <= 0xffff_ffff,
        decreases n - i,
    {
        let c = count_ones(a[i] ^ b[i]);
        proof {
            lemma_hamming_prefix_mono(a@, b@, (i + 1) as nat, n as nat);
        }
        sum = sum + c;
        i = i + 1;
    }
    sum
}

proof fn lemma_hamming_prefix_mono(a: Seq<u8>, b: Seq<u8>, i: nat, n: nat)
    requires
        i <= n,
    ensures
        hamming_prefix(a, b, i) <= hamming_prefix(a, b, n),
    decreases n,
{
    if i < n {
        lemma_hamming_prefix_mono(a, b, i, (n - 1) as nat);
    }
}

/// Law: the Hamming distance is symmetric, zero from a byte string to itself,
/// and at most 8 bits per compared byte.
pub proof fn lemma_hamming_laws(a: Seq<u8>, b: Seq<u8>, n: nat)
    requires
        n <= a.len(),
        n <= b.len(),
    ensures
        hamming_prefix(a, b, n) == hamming_prefix(b, a, n),
        hamming_prefix(a, a, n) == 0,
        hamming_prefix(a, b, n) <= 8 * n,
    decreases n,
{
    if n > 0 {
        lemma_hamming_laws(a, b, (n - 1) as nat);
        let x = a[n - 1];
        let y = b[n - 1];
        assert(x ^ y == y ^ x) by (bit_vector);
        assert(x ^ x == 0u8) by (bit_vector);
        reveal_with_fuel(pow2, 9);
        lemma_popcount_bound((x ^ y) as nat, 8);
    }
}

/// Law: two byte strings of equal length are at distance 0 exactly when they are equal.
pub proof fn lemma_hamming_zero_iff_equal(a: Seq<u8>, b: Seq<u8>)
    requires
        a.len() == b.len(),
    ensures
        hamming_spec(a, b) == 0 <==> a == b,
{
    lemma_hamming_zero_prefix(a, b, a.len());
    if hamming_spec(a, b) == 0 {
        assert(a =~= b);
    }
}

proof fn lemma_hamming_zero_prefix(a: Seq<u8>, b: Seq<u8>, n: nat)
    requires
        n <= a.len(),
        n <= b.len(),
    ensures
        hamming_prefix(a, b, n) == 0 <==> forall|i: int| 0 <= i < n ==> #[trigger] a[i] == b[i],
    decreases n,
{
    if n > 0 {
        lemma_hamming_zero_prefix(a, b, (n - 1) as nat);
        let x = a[n - 1];
        let y = b[n - 1];
        assert((x ^ y) == 0u8 <==> x == y) by (bit_vector);
        lemma_popcount_zero((x ^ y) as nat);
    }
}

proof fn lemma_popcount_zero(x: nat)
    ensures
        popcount(x) == 0 <==> x == 0,
    decreases x,
{
    if x > 0 {
        lemma_popcount_zero(x / 2);
    }
}

// ─── Image metadata records ─────────────────────────

/// The record bytes of an image's metadata: width, height, hash, histogram,
/// content hash, and four bytes of padding.
pub open spec fn image_meta_bytes(m: ImageMeta) -> Seq<u8> {
    le_bytes(m.width as nat, 2) + le_bytes(m.height as nat, 2) + m.phash@ + m.color_histogram@
        + le_bytes(m.content_hash as nat, 4) + seq![0u8, 0u8, 0u8, 0u8]
}

/// Appends the record of `m` to `buf`.
pub fn encode_image_meta(m: &ImageMeta, buf: &mut Vec<u8>)
    ensures
        final(buf)@ == old(buf)@ + image_meta_bytes(*m),
{
    let ghost start = buf@;
    push_le(buf, m.width as u64, 2);
    push_le(buf, m.height as u64, 2);
    let mut i: usize = 0;
    let ghost s1 = buf@;
    while i < 8
        invariant
            i <= 8,
            buf@ =~= s1 + m.phash@.take(i as int),
        decreases 8 - i,
    {
        buf.push(m.phash[i]);
        i = i + 1;
    }
    let ghost s2 = buf@;
    let mut j: usize = 0;
    while j < 12
        invariant
            j <= 12,
            buf@ =~= s2 + m.color_histogram@.take(j as int),
        decreases 12 - j,
    {
        buf.push(m.color_histogram[j]);
        j = j + 1;
    }
    assert(m.phash@.take(8) =~= m.phash@);
    assert(m.color_histogram@.take(12) =~= m.color_histogram@);
    push_le(buf, m.content_hash as u64, 4);
    buf.push(0);
    buf.push(0);
    buf.push(0);
    buf.push(0);
    assert(buf@ =~= start + image_meta_bytes(*m));
}

/// Read the image record at the start of `data`.
pub fn decode_image_meta(data: &[u8]) -> (m: ImageMeta)
    requires
        data@.len() >= 28,
    ensures
        m.width == le_value(data@.subrange(0, 2)),
        m.height == le_value(data@.subrange(2, 4)),
        m.phash@ == data@.subrange(4, 12),
        m.color_histogram@ == data@.subrange(12, 24),
        m.content_hash == le_value(data@.subrange(24, 28)),
{
    proof {
        lemma_pow256_values();
        lemma_le_value_bound(data@.subrange(0, 2));
        lemma_le_value_bound(data@.subrange(2, 4));
        lemma_le_value_bound(data@.subrange(24, 28));
    }
    let width = read_u16(data, 0);
    let height = read_u16(data, 2);
    let mut phash: [u8; 8] = [0u8; 8];
    let mut i: usize = 0;
    while i < 8
        invariant
            i <= 8,
            data@.len() >= 28,
            forall|k: int| 0 <= k < i ==> phash@[k] == data@[4 + k],
        decreases 8 - i,
    {
        phash[i] = data[4 + i];
        i = i + 1;
    }
    let mut color_histogram: [u8; 12] = [0u8; 12];
    let mut j: usize = 0;
    while j < 12
        invariant
            j <= 12,
            data@.len() >= 28,
            forall|k: int| 0 <= k < j ==> color_histogram@[k] == data@[12 + k],
        decreases 12 - j,
    {
        color_histogram[j] = data[12 + j];
        j = j + 1;
    }
    assert(phash@ =~= data@.subrange(4, 12));
    assert(color_histogram@ =~= data@.subrange(12, 24));
    let content_hash = read_u32(data, 24);
    ImageMeta { width, height, phash, color_histogram, content_hash }
}

// ─── Modalities ─────────────────────────────────────

/// Mathematical value of image metadata.
pub struct ImageMetaV {
    pub width: u16,
    pub height: u16,
    pub phash: Seq<u8>,
    pub color_histogram: Seq<u8>,
    pub content_hash: u32,
}

impl View for ImageMeta {
    type V = ImageMetaV;

    open spec fn view(&self) -> ImageMetaV {
        ImageMetaV {
            width: self.width,
            height: self.height,
            phash: self.phash@,
            color_histogram: self.color_histogram@,
            content_hash: self.content_hash,
        }
    }
}

/// Audio metadata; the two rates are carried as `f32` bit patterns.
#[derive(Clone, Copy, Debug, PartialEq, Eq)]
pub struct AudioMeta {
    pub duration_ms: u32,
    pub sample_rate: u16,
    pub spectral_fingerprint: [u8; 16],
    /// Bit pattern of the `f32` peak frequency.
    pub peak_freq_bits: u32,
    /// Bit pattern of the `f32` tempo estimate.
    pub bpm_estimate_bits: u32,
}

/// Mathematical value of audio metadata.
pub struct AudioMetaV {
    pub duration_ms: u32,
    pub sample_rate: u16,
    pub spectral_fingerprint: Seq<u8>,
    pub peak_freq_bits: u32,
    pub bpm_estimate_bits: u32,
}

impl View for AudioMeta {
    type V = AudioMetaV;

    open spec fn view(&self) -> AudioMetaV {
        AudioMetaV {
            duration_ms: self.duration_ms,
            sample_rate: self.sample_rate,
            spectral_fingerprint: self.spectral_fingerprint@,
            peak_freq_bits: self.peak_freq_bits,
            bpm_estimate_bits: self.bpm_estimate_bits,
        }
    }
}

/// A typed value of structured data; a float is carried as its `f64` bit pattern.
#[derive(Clone, Debug, PartialEq)]
pub enum FieldValue {
    Str(String),
    Int(i64),
    Float(u64),
    Bool(bool),
}

/// Mathematical value of a field value.
pub enum FieldValueV {
    Str(Seq<char>),
    Int(i64),
    Float(u64),
    Bool(bool),
}

impl View for FieldValue {
    type V = FieldValueV;

    open spec fn view(&self) -> FieldValueV {
        match self {
            FieldValue::Str(s) => FieldValueV::Str(s@),
            FieldValue::Int(i) => FieldValueV::Int(*i),
            FieldValue::Float(b) => FieldValueV::Float(*b),
            FieldValue::Bool(b) => FieldValueV::Bool(*b),
        }
    }
}

/// Typed key-value pairs.
#[derive(Clone, Debug, PartialEq)]
pub struct StructuredMeta {
    pub fields: Vec<(String, FieldValue)>,
}

pub open spec fn fields_view(v: Seq<(String, FieldValue)>) -> Seq<(Seq<char>, FieldValueV)> {
    v.map_values(|f: (String, FieldValue)| (f.0@, f.1@))
}

impl View for StructuredMeta {
    type V = Seq<(Seq<char>, FieldValueV)>;

    open spec fn view(&self) -> Seq<(Seq<char>, FieldValueV)> {
        fields_view(self.fields@)
    }
}

/// The modality of a block.
#[derive(Clone, Debug, PartialEq)]
pub enum Modality {
    Text,
    Image(ImageMeta),
    Audio(AudioMeta),
    Structured(StructuredMeta),
}

/// Mathematical value of a modality.
pub enum ModalityV {
    Text,
    Image(ImageMetaV),
    Audio(AudioMetaV),
    Structured(Seq<(Seq<char>, FieldValueV)>),
}

impl View for Modality {
    type V = ModalityV;

    open spec fn view(&self) -> ModalityV {
        match self {
            Modality::Text => ModalityV::Text,
            Modality::Image(m) => ModalityV::Image(m@),
            Modality::Audio(m) => ModalityV::Audio(m@),
            Modality::Structured(m) => ModalityV::Structured(m@),
        }
    }
}

/// The tag a modality is stored with.
pub open spec fn modality_tag(m: ModalityV) -> u8 {
    match m {
        ModalityV::Text => 0,
        ModalityV::Image(_) => 1,
        ModalityV::Audio(_) => 2,
        ModalityV::Structured(_) => 3,
    }
}

impl Modality {
    /// Stored tag: 0 text, 1 image, 2 audio, 3 structured.
    pub fn tag(&self) -> (r: u8)
        ensures
            r == modality_tag(self@),
    {
        match self {
            Modality::Text => 0,
            Modality::Image(_) => 1,
            Modality::Audio(_) => 2,
            Modality::Structured(_) => 3,
        }
    }

    /// Name of the modality.
    pub fn name(&self) -> (r: &'static str)
        ensures
            r@ == (match self@ {
                ModalityV::Text => "text"@,
                ModalityV::Image(_) => "image"@,
                ModalityV::Audio(_) => "audio"@,
                ModalityV::Structured(_) => "structured"@,
            }),
    {
        match self {
            Modality::Text => "text",
            Modality::Image(_) => "image",
            Modality::Audio(_) => "audio",
            Modality::Structured(_) => "structured",
        }
    }
}

impl FieldValue {
    /// Stored tag: 0 string, 1 integer, 2 float, 3 boolean.
    pub fn type_tag(&self) -> (r: u8)
        ensures
            r == (match self@ {
                FieldValueV::Str(_) => 0u8,
                FieldValueV::Int(_) => 1u8,
                FieldValueV::Float(_) => 2u8,
                FieldValueV::Bool(_) => 3u8,
            }),
    {
        match self {
            FieldValue::Str(_) => 0,
            FieldValue::Int(_) => 1,
            FieldValue::Float(_) => 2,
            FieldValue::Bool(_) => 3,
        }
    }
}

// ─── Audio metadata records ─────────────────────────

/// The record bytes of audio metadata: duration, sample rate, fingerprint,
/// peak frequency, tempo, and two bytes of padding.
pub open spec fn audio_meta_bytes(m: AudioMetaV) -> Seq<u8> {
    le_bytes(m.duration_ms as nat, 4) + le_bytes(m.sample_rate as nat, 2) + m.spectral_fingerprint
        + le_bytes(m.peak_freq_bits as nat, 4) + le_bytes(m.bpm_estimate_bits as nat, 4) + seq![0u8, 0u8]
}

/// The audio metadata whose record starts at `q`.
pub open spec fn audio_meta_at(d: Seq<u8>, q: int) -> AudioMetaV {
    AudioMetaV {
        duration_ms: u32_at(d, q),
        sample_rate: u16_at(d, q + 4),
        spectral_fingerprint: d.subrange(q + 6, q + 22),
        peak_freq_bits: u32_at(d, q + 22),
        bpm_estimate_bits: u32_at(d, q + 26),
    }
}

/// Appends the record of `m` to `buf`.
pub fn encode_audio_meta(m: &AudioMeta, buf: &mut Vec<u8>)
    ensures
        final(buf)@ == old(buf)@ + audio_meta_bytes(m@),
{
    let ghost start = buf@;
    push_le(buf, m.duration_ms as u64, 4);
    push_le(buf, m.sample_rate as u64, 2);
    let ghost s1 = buf@;
    let mut i: usize = 0;
    while i < 16
        invariant
            i <= 16,
            buf@ =~= s1 + m.spectral_fingerprint@.take(i as int),
        decreases 16 - i,
    {
        buf.push(m.spectral_fingerprint[i]);
        i = i + 1;
    }
    assert(m.spectral_fingerprint@.take(16) =~= m.spectral_fingerprint@);
    push_le(buf, m.peak_freq_bits as u64, 4);
    push_le(buf, m.bpm_estimate_bits as u64, 4);
    buf.push(0);
    buf.push(0);
    assert(buf@ =~= start + audio_meta_bytes(m@));
}

/// Read the audio record at the start of `data`.
pub fn decode_audio_meta(data: &[u8]) -> (m: AudioMeta)
    requires
        data@.len() >= 30,
    ensures
        m@ == audio_meta_at(data@, 0),
{
    let duration_ms = read_u32(data, 0);
    let sample_rate = read_u16(data, 4);
    let mut spectral_fingerprint: [u8; 16] = [0u8; 16];
    let mut i: usize = 0;
    while i < 16
        invariant
            i <= 16,
            data@.len() >= 30,
            forall|k: int| 0 <= k < i ==> spectral_fingerprint@[k] == data@[6 + k],
        decreases 16 - i,
    {
        spectral_fingerprint[i] = data[6 + i];
        i = i + 1;
    }
    assert(spectral_fingerprint@ =~= data@.subrange(6, 22));
    let peak_freq_bits = read_u32(data, 22);
    let bpm_estimate_bits = read_u32(data, 26);
    AudioMeta { duration_ms, sample_rate, spectral_fingerprint, peak_freq_bits, bpm_estimate_bits }
}

/// The image metadata whose record starts at `q`.
pub open spec fn image_meta_at(d: Seq<u8>, q: int) -> ImageMetaV {
    ImageMetaV {
        width: u16_at(d, q),
        height: u16_at(d, q + 2),
        phash: d.subrange(q + 4, q + 12),
        color_histogram: d.subrange(q + 12, q + 24),
        content_hash: u32_at(d, q + 24),
    }
}

// ─── Structured metadata records ────────────────────

/// Bytes of `s` written with a one-byte length: at most 255 of them.
pub open spec fn short_len(s: Seq<char>) -> nat {
    let n = encode_utf8(s).len();
    if n < 255 {
        n
    } else {
        255
    }
}

pub open spec fn short_bytes(s: Seq<char>) -> Seq<u8> {
    seq![short_len(s) as u8] + encode_utf8(s).take(short_len(s) as int)
}

/// The length byte and payload of a value.
pub open spec fn value_bytes(v: FieldValueV) -> Seq<u8> {
    match v {
        FieldValueV::Str(s) => short_bytes(s),
        FieldValueV::Int(i) => seq![8u8] + le_bytes((i as u64) as nat, 8),
        FieldValueV::Float(b) => seq![8u8] + le_bytes(b as nat, 8),
        FieldValueV::Bool(b) => seq![1u8, if b { 1u8 } else { 0u8 }],
    }
}

pub open spec fn value_tag(v: FieldValueV) -> u8 {
    match v {
        FieldValueV::Str(_) => 0,
        FieldValueV::Int(_) => 1,
        FieldValueV::Float(_) => 2,
        FieldValueV::Bool(_) => 3,
    }
}

/// The bytes of one field: key (length-prefixed), type tag, value.
pub open spec fn field_bytes(f: (Seq<char>, FieldValueV)) -> Seq<u8> {
    short_bytes(f.0) + seq![value_tag(f.1)] + value_bytes(f.1)
}

pub open spec fn fields_bytes(fs: Seq<(Seq<char>, FieldValueV)>) -> Seq<u8>
    decreases fs.len(),
{
    if fs.len() == 0 {
        Seq::empty()
    } else {
        field_bytes(fs[0]) + fields_bytes(fs.drop_first())
    }
}

/// A structured record: the field count (its low byte), then the fields.
pub open spec fn structured_bytes(fs: Seq<(Seq<char>, FieldValueV)>) -> Seq<u8> {
    seq![(fs.len() % 256) as u8] + fields_bytes(fs)
}

/// The value stored with type `tag` and `vl` payload bytes at `v0`, if the
/// reader keeps it.
pub open spec fn field_value_at(d: Seq<u8>, tag: u8, v0: int, vl: int) -> Option<FieldValueV> {
    if tag == 0 {
        Some(FieldValueV::Str(lossy_text(d.subrange(v0, v0 + vl))))
    } else if tag == 1 && vl == 8 {
        Some(FieldValueV::Int(le_value(d.subrange(v0, v0 + 8)) as i64))
    } else if tag == 2 && vl == 8 {
        Some(FieldValueV::Float(le_value(d.subrange(v0, v0 + 8)) as u64))
    } else if tag == 3 && vl >= 1 {
        Some(FieldValueV::Bool(d[v0] != 0))
    } else {
        None
    }
}

/// Up to `count` fields from `p`; reading stops at the first field that does
/// not fit, and a field of an unknown type or size is skipped.
pub open spec fn parse_fields(d: Seq<u8>, p: int, count: nat) -> Seq<(Seq<char>, FieldValueV)>
    decreases count,
{
    if count == 0 || p >= d.len() {
        Seq::empty()
    } else {
        let kl = d[p] as int;
        let q = p + 1 + kl;
        if q >= d.len() || q + 2 > d.len() || q + 2 + d[q + 1] as int > d.len() {
            Seq::empty()
        } else {
            let vl = d[q + 1] as int;
            let rest = parse_fields(d, q + 2 + vl, (count - 1) as nat);
            match field_value_at(d, d[q], q + 2, vl) {
                Some(v) => seq![(lossy_text(d.subrange(p + 1, q)), v)] + rest,
                None => rest,
            }
        }
    }
}

/// The fields of a structured record; an empty record holds none.
pub open spec fn structured_from(d: Seq<u8>) -> Option<Seq<(Seq<char>, FieldValueV)>> {
    if d.len() == 0 {
        None
    } else {
        Some(parse_fields(d, 1, d[0] as nat))
    }
}

fn push_short(buf: &mut Vec<u8>, s: &str)
    ensures
        final(buf)@ == old(buf)@ + short_bytes(s@),
{
    let bytes: &[u8] = s.as_bytes();
    let n: usize = bytes.len();
    let l: usize = if n < 255 {
        n
    } else {
        255
    };
    buf.push(l as u8);
    let ghost b1 = buf@;
    let mut i: usize = 0;
    while i < l
        invariant
            i <= l <= n,
            n == bytes@.len(),
            buf@ =~= b1 + bytes@.take(i as int),
        decreases l - i,
    {
        buf.push(bytes[i]);
        i = i + 1;
    }
}

proof fn lemma_fields_bytes_push(fs: Seq<(Seq<char>, FieldValueV)>, f: (Seq<char>, FieldValueV))
    ensures
        fields_bytes(fs.push(f)) == fields_bytes(fs) + field_bytes(f),
    decreases fs.len(),
{
    if fs.len() == 0 {
        assert(fs.push(f).drop_first() =~= fs);
        assert(fields_bytes(fs) =~= Seq::<u8>::empty());
        assert(fields_bytes(fs.push(f)) =~= fields_bytes(fs) + field_bytes(f));
    } else {
        lemma_fields_bytes_push(fs.drop_first(), f);
        assert(fs.push(f).drop_first() =~= fs.drop_first().push(f));
        assert(fields_bytes(fs.push(f)) =~= field_bytes(fs[0]) + (fields_bytes(fs.drop_first())
            + field_bytes(f)));
    }
}

/// The record of structured data. Keys and strings keep their first 255
/// bytes and the field count its low byte.
pub fn encode_structured_meta(m: &StructuredMeta) -> (r: Vec<u8>)
    ensures
        r@ == structured_bytes(m@),
{
    let mut buf: Vec<u8> = Vec::new();
    let n: usize = m.fields.len();
    buf.push((n % 256) as u8);
    let ghost fs = m@;
    let ghost b0 = buf@;
    let mut i: usize = 0;
    assert(fs.take(0) =~= Seq::<(Seq<char>, FieldValueV)>::empty());
    while i < n
        invariant
            i <= n,
            n == m.fields@.len(),
            fs == m@,
            fs.len() == n,
            buf@ == b0 + fields_bytes(fs.take(i as int)),
        decreases n - i,
    {
        let ghost b = buf@;
        let (key, val) = &m.fields[i];
        assert(fs[i as int] == (key@, val@));
        push_short(&mut buf, key.as_str());
        buf.push(val.type_tag());
        match val {
            FieldValue::Str(s) => {
                push_short(&mut buf, s.as_str());
            },
            FieldValue::Int(v) => {
                buf.push(8);
                push_le(&mut buf, *v as u64, 8);
            },
            FieldValue::Float(bits) => {
                buf.push(8);
                push_le(&mut buf, *bits, 8);
            },
            FieldValue::Bool(b) => {
                buf.push(1);
                buf.push(if *b {
                    1
                } else {
                    0
                });
            },
        }
        assert(buf@ =~= b + field_bytes(fs[i as int]));
        proof {
            lemma_fields_bytes_push(fs.take(i as int), fs[i as int]);
            assert(fs.take(i + 1) =~= fs.take(i as int).push(fs[i as int]));
        }
        i = i + 1;
    }
    assert(fs.take(n as int) =~= fs);
    assert(buf@ =~= structured_bytes(m@));
    buf
}

/// Reads the fields of a structured record (`None` for an empty record).
pub fn decode_structured_meta(data: &[u8]) -> (r: Option<StructuredMeta>)
    ensures
        match r {
            Some(m) => structured_from(data@) == Some(m@),
            None => structured_from(data@) is None,
        },
{
    let len: usize = data.len();
    if len == 0 {
        return None;
    }
    let count: u8 = data[0];
    let mut pos: usize = 1;
    let mut k: u8 = 0;
    let mut fields: Vec<(String, FieldValue)> = Vec::new();
    let ghost all = parse_fields(data@, 1, count as nat);
    assert(fields_view(fields@) + all =~= all);
    loop
        invariant
            1 <= pos <= len,
            len == data@.len(),
            k <= count,
            all == parse_fields(data@, 1, count as nat),
            all == fields_view(fields@) + parse_fields(data@, pos as int, (count - k) as nat),
        ensures
            fields_view(fields@) == all,
        decreases count - k,
    {
        if k == count || pos >= len {
            assert(parse_fields(data@, pos as int, (count - k) as nat) =~= Seq::<(Seq<char>, FieldValueV)>::empty());
            assert(fields_view(fields@) + Seq::<(Seq<char>, FieldValueV)>::empty() =~= fields_view(fields@));
            break;
        }
        let kl: usize = data[pos] as usize;
        if len - pos - 1 <= kl || len - pos - 1 - kl < 2 {
            assert(parse_fields(data@, pos as int, (count - k) as nat) =~= Seq::<(Seq<char>, FieldValueV)>::empty());
            assert(fields_view(fields@) + Seq::<(Seq<char>, FieldValueV)>::empty() =~= fields_view(fields@));
            break;
        }
        let q: usize = pos + 1 + kl;
        let tag: u8 = data[q];
        let vl: usize = data[q + 1] as usize;
        if len - q - 2 < vl {
            assert(parse_fields(data@, pos as int, (count - k) as nat) =~= Seq::<(Seq<char>, FieldValueV)>::empty());
            assert(fields_view(fields@) + Seq::<(Seq<char>, FieldValueV)>::empty() =~= fields_view(fields@));
            break;
        }
        let v0: usize = q + 2;
        let ghost next = parse_fields(data@, (v0 + vl) as int, (count - k - 1) as nat);
        let value: Option<FieldValue> = if tag == 0 {
            Some(FieldValue::Str(lossy_string(vstd::slice::slice_subrange(data, v0, v0 + vl))))
        } else if tag == 1 && vl == 8 {
            Some(FieldValue::Int(read_le(data, v0, 8) as i64))
        } else if tag == 2 && vl == 8 {
            Some(FieldValue::Float(read_le(data, v0, 8)))
        } else if tag == 3 && vl >= 1 {
            Some(FieldValue::Bool(data[v0] != 0))
        } else {
            None
        };
        match value {
            Some(v) => {
                assert(field_value_at(data@, tag, v0 as int, vl as int) == Some(v@));
                let key = lossy_string(vstd::slice::slice_subrange(data, pos + 1, q));
                let ghost prev = fields_view(fields@);
                let ghost f = (key@, v@);
                assert(parse_fields(data@, pos as int, (count - k) as nat) == seq![f] + next);
                fields.push((key, v));
                assert(fields_view(fields@) =~= prev.push(f));
                assert(prev + (seq![f] + next) =~= fields_view(fields@) + next);
            },
            None => {
                assert(field_value_at(data@, tag, v0 as int, vl as int) is None);
                assert(parse_fields(data@, pos as int, (count - k) as nat) == next);
            },
        }
        pos = v0 + vl;
        k = k + 1;
    }
    Some(StructuredMeta { fields })
}

// ─── The modality index ─────────────────────────────

/// One entry of the modality index.
pub struct ModalityEntry {
    pub block_idx: u32,
    pub modality: ModalityV,
}

impl Keyed for ModalityEntry {
    /// An entry is stored under its block.
    open spec fn key(&self) -> int {
        self.block_idx as int
    }
}

/// Sidecar index from blocks to their modality metadata, one entry per
/// block in the order blocks were first registered.
pub struct ModalityIndex {
    pub entries: Vec<(u32, Modality)>,
}

pub open spec fn index_entries(v: Seq<(u32, Modality)>) -> Seq<ModalityEntry> {
    v.map_values(|e: (u32, Modality)| ModalityEntry { block_idx: e.0, modality: e.1@ })
}

/// The modality stored with `tag` and `plen` payload bytes at `q`, if the
/// reader keeps it.
pub open spec fn modality_at(d: Seq<u8>, tag: u8, q: int, plen: int) -> Option<ModalityV> {
    if tag == 0 {
        Some(ModalityV::Text)
    } else if tag == 1 && plen >= 32 {
        Some(ModalityV::Image(image_meta_at(d, q)))
    } else if tag == 2 && plen >= 32 {
        Some(ModalityV::Audio(audio_meta_at(d, q)))
    } else if tag == 3 {
        match structured_from(d.subrange(q, q + plen)) {
            Some(fs) => Some(ModalityV::Structured(fs)),
            None => None,
        }
    } else {
        None
    }
}

/// Up to `count` entries from `p`: each has a 7-byte head (block, tag,
/// payload length) and its payload; reading stops at the first that does
/// not fit, and a payload the reader does not know is skipped.
pub open spec fn parse_modalities(d: Seq<u8>, p: int, count: nat) -> Seq<ModalityEntry>
    decreases count,
{
    if count == 0 || p + 7 > d.len() || p + 7 + u16_at(d, p + 5) > d.len() {
        Seq::empty()
    } else {
        let q = p + 7;
        let plen = u16_at(d, p + 5) as int;
        let rest = parse_modalities(d, q + plen, (count - 1) as nat);
        match modality_at(d, d[p + 4], q, plen) {
            Some(m) => seq![ModalityEntry { block_idx: u32_at(d, p), modality: m }] + rest,
            None => rest,
        }
    }
}

pub open spec fn mod_magic() -> Seq<u8> {
    seq![0x4du8, 0x4fu8, 0x44u8, 0x31u8]
}

/// The entries of an index file (`MOD1`, a `u32` count, the entries), in
/// file order; anything else holds none.
pub open spec fn mod_file_entries(d: Seq<u8>) -> Seq<ModalityEntry> {
    if d.len() < 8 || d.subrange(0, 4) != mod_magic() {
        Seq::empty()
    } else {
        parse_modalities(d, 8, u32_at(d, 4) as nat)
    }
}

/// The payload of a modality with its length in front (as `u16`).
pub open spec fn modality_payload(m: ModalityV) -> Seq<u8> {
    match m {
        ModalityV::Text => le_bytes(0, 2),
        ModalityV::Image(im) => le_bytes(32, 2) + image_v_bytes(im),
        ModalityV::Audio(a) => le_bytes(32, 2) + audio_meta_bytes(a),
        ModalityV::Structured(fs) => le_bytes(structured_bytes(fs).len(), 2) + structured_bytes(fs),
    }
}

/// The record bytes of image metadata.
pub open spec fn image_v_bytes(m: ImageMetaV) -> Seq<u8> {
    le_bytes(m.width as nat, 2) + le_bytes(m.height as nat, 2) + m.phash + m.color_histogram + le_bytes(
        m.content_hash as nat,
        4,
    ) + seq![0u8, 0u8, 0u8, 0u8]
}

pub open spec fn entry_bytes(e: ModalityEntry) -> Seq<u8> {
    le_bytes(e.block_idx as nat, 4) + seq![modality_tag(e.modality)] + modality_payload(e.modality)
}

pub open spec fn entries_bytes(es: Seq<ModalityEntry>) -> Seq<u8>
    decreases es.len(),
{
    if es.len() == 0 {
        Seq::empty()
    } else {
        entry_bytes(es[0]) + entries_bytes(es.drop_first())
    }
}

/// The index file of these entries.
pub open spec fn mod_file_bytes(es: Seq<ModalityEntry>) -> Seq<u8> {
    mod_magic() + le_bytes(es.len(), 4) + entries_bytes(es)
}

proof fn lemma_entries_bytes_push(es: Seq<ModalityEntry>, e: ModalityEntry)
    ensures
        entries_bytes(es.push(e)) == entries_bytes(es) + entry_bytes(e),
    decreases es.len(),
{
    if es.len() == 0 {
        assert(es.push(e).drop_first() =~= es);
        assert(entries_bytes(es) =~= Seq::<u8>::empty());
        assert(entries_bytes(es.push(e)) =~= entries_bytes(es) + entry_bytes(e));
    } else {
        lemma_entries_bytes_push(es.drop_first(), e);
        assert(es.push(e).drop_first() =~= es.drop_first().push(e));
        assert(entries_bytes(es.push(e)) =~= entry_bytes(es[0]) + (entries_bytes(es.drop_first())
            + entry_bytes(e)));
    }
}

/// Matches of an image search over index entries, in index order.
pub open spec fn image_matches(es: Seq<ModalityEntry>, target: Seq<u8>, max: nat) -> Seq<(u32, u32)>
    decreases es.len(),
{
    if es.len() == 0 {
        Seq::empty()
    } else {
        let rest = image_matches(es.drop_last(), target, max);
        match es.last().modality {
            ModalityV::Image(m) => if hamming_spec(m.phash, target) <= max {
                rest.push((es.last().block_idx, hamming_spec(m.phash, target) as u32))
            } else {
                rest
            },
            _ => rest,
        }
    }
}

/// Number of entries of a modality tag.
pub open spec fn count_tag(es: Seq<ModalityEntry>, t: u8) -> nat
    decreases es.len(),
{
    if es.len() == 0 {
        0
    } else {
        count_tag(es.drop_last(), t) + if modality_tag(es.last().modality) == t {
            1nat
        } else {
            0nat
        }
    }
}

proof fn lemma_count_tag_le(es: Seq<ModalityEntry>, t: u8)
    ensures
        count_tag(es, t) <= es.len(),
    decreases es.len(),
{
    if es.len() > 0 {
        lemma_count_tag_le(es.drop_last(), t);
    }
}

/// Equality of two `f64` values given by their bit patterns: equal bits or
/// both zeros, and neither a NaN.
pub open spec fn f64_bits_eq(a: u64, b: u64) -> bool {
    let nan_a = (a >> 52) & 0x7ff == 0x7ff && a & 0xf_ffff_ffff_ffff != 0;
    let nan_b = (b >> 52) & 0x7ff == 0x7ff && b & 0xf_ffff_ffff_ffff != 0;
    !nan_a && !nan_b && (a == b || (a & 0x7fff_ffff_ffff_ffff == 0 && b & 0x7fff_ffff_ffff_ffff == 0))
}

/// Equality of field values as the derived `==` of the value type decides it.
pub open spec fn value_eq(a: FieldValueV, b: FieldValueV) -> bool {
    match (a, b) {
        (FieldValueV::Str(x), FieldValueV::Str(y)) => x == y,
        (FieldValueV::Int(x), FieldValueV::Int(y)) => x == y,
        (FieldValueV::Float(x), FieldValueV::Float(y)) => f64_bits_eq(x, y),
        (FieldValueV::Bool(x), FieldValueV::Bool(y)) => x == y,
        _ => false,
    }
}

/// Some field of `fs` has key `k` and a value equal to `v`.
pub open spec fn has_field(fs: Seq<(Seq<char>, FieldValueV)>, k: Seq<char>, v: FieldValueV) -> bool {
    exists|i: int| 0 <= i < fs.len() && #[trigger] fs[i].0 == k && value_eq(fs[i].1, v)
}

/// Blocks of the structured entries holding a field `k` equal to `v`, in index order.
pub open spec fn structured_matches(es: Seq<ModalityEntry>, k: Seq<char>, v: FieldValueV) -> Seq<u32>
    decreases es.len(),
{
    if es.len() == 0 {
        Seq::empty()
    } else {
        let rest = structured_matches(es.drop_last(), k, v);
        match es.last().modality {
            ModalityV::Structured(fs) => if has_field(fs, k, v) {
                rest.push(es.last().block_idx)
            } else {
                rest
            },
            _ => rest,
        }
    }
}

fn f64_eq_bits(a: u64, b: u64) -> (r: bool)
    ensures
        r == f64_bits_eq(a, b),
{
    let nan_a = (a >> 52) & 0x7ff == 0x7ff && a & 0xf_ffff_ffff_ffff != 0;
    let nan_b = (b >> 52) & 0x7ff == 0x7ff && b & 0xf_ffff_ffff_ffff != 0;
    !nan_a && !nan_b && (a == b || (a & 0x7fff_ffff_ffff_ffff == 0 && b & 0x7fff_ffff_ffff_ffff == 0))
}

fn field_value_eq(a: &FieldValue, b: &FieldValue) -> (r: bool)
    ensures
        r == value_eq(a@, b@),
{
    match (a, b) {
        (FieldValue::Str(x), FieldValue::Str(y)) => str_eq(x.as_str(), y.as_str()),
        (FieldValue::Int(x), FieldValue::Int(y)) => *x == *y,
        (FieldValue::Float(x), FieldValue::Float(y)) => f64_eq_bits(*x, *y),
        (FieldValue::Bool(x), FieldValue::Bool(y)) => *x == *y,
        _ => false,
    }
}

impl ModalityIndex {
    /// An empty index.
    pub fn new() -> (r: Self)
        ensures
            r.entries@.len() == 0,
    {
        ModalityIndex { entries: Vec::new() }
    }

    /// Each block has one entry.
    pub open spec fn well_formed(&self) -> bool {
        keys_unique(index_entries(self.entries@))
    }

    /// Register a block's modality, replacing one registered before.
    pub fn register(&mut self, block_idx: u32, modality: Modality)
        requires
            old(self).well_formed(),
        ensures
            final(self).well_formed(),
            index_entries(final(self).entries@) == upsert(
                index_entries(old(self).entries@),
                ModalityEntry { block_idx, modality: modality@ },
            ),
    {
        let ghost olds = index_entries(self.entries@);
        let ghost e = ModalityEntry { block_idx, modality: modality@ };
        proof {
            lemma_upsert_unique(olds, e);
        }
        let n: usize = self.entries.len();
        let mut i: usize = 0;
        while i < n
            invariant
                i <= n,
                n == self.entries@.len(),
                self.entries@ == old(self).entries@,
                olds == index_entries(self.entries@),
                keys_unique(olds),
                e == (ModalityEntry { block_idx, modality: modality@ }),
                forall|j: int| 0 <= j < i ==> (#[trigger] olds[j]).key() != e.key(),
            decreases n - i,
        {
            assert(olds[i as int].block_idx == self.entries@[i as int].0);
            if self.entries[i].0 == block_idx {
                assert(olds[i as int].key() == e.key());
                let ghost c = choose|j: int| 0 <= j < olds.len() && #[trigger] olds[j].key() == e.key();
                assert(c == i);
                self.entries.set(i, (block_idx, modality));
                assert(index_entries(self.entries@) =~= olds.update(i as int, e));
                return;
            }
            i = i + 1;
        }
        assert(!has_key(olds, e.key()));
        self.entries.push((block_idx, modality));
        assert(index_entries(self.entries@) =~= olds.push(e));
    }

    /// The modality registered for a block.
    pub fn get(&self, block_idx: u32) -> (r: Option<&Modality>)
        ensures
            match r {
                Some(m) => exists|i: int|
                    0 <= i < self.entries@.len() && #[trigger] self.entries@[i].0 == block_idx
                        && self.entries@[i].1 == *m,
                None => forall|i: int| 0 <= i < self.entries@.len() ==> #[trigger] self.entries@[i].0 != block_idx,
            },
    {
        let n: usize = self.entries.len();
        let mut i: usize = 0;
        while i < n
            invariant
                i <= n,
                n == self.entries@.len(),
                forall|j: int| 0 <= j < i ==> #[trigger] self.entries@[j].0 != block_idx,
            decreases n - i,
        {
            if self.entries[i].0 == block_idx {
                return Some(&self.entries[i].1);
            }
            i = i + 1;
        }
        None
    }

    /// Search by perceptual hash similarity: the (block, Hamming distance)
    /// pairs of the images within `max_distance` bits of `phash`, sorted by
    /// distance.
    pub fn search_image_similar(&self, phash: &[u8; 8], max_distance: u32) -> (r: Vec<(u32, u32)>)
        ensures
            r@.to_multiset() == image_matches(index_entries(self.entries@), phash@, max_distance as nat).to_multiset(),
            forall|a: int, b: int| 0 <= a < b < r@.len() ==> r@[a].1 <= r@[b].1,
    {
        let ghost es = index_entries(self.entries@);
        let n: usize = self.entries.len();
        let mut out: Vec<(u32, u32)> = Vec::new();
        let mut i: usize = 0;
        assert(es.take(0) =~= Seq::<ModalityEntry>::empty());
        while i < n
            invariant
                i <= n,
                n == self.entries@.len(),
                es == index_entries(self.entries@),
                out@.to_multiset() == image_matches(es.take(i as int), phash@, max_distance as nat).to_multiset(),
                forall|a: int, b: int| 0 <= a < b < out@.len() ==> out@[a].1 <= out@[b].1,
            decreases n - i,
        {
            assert(es.take(i + 1).drop_last() =~= es.take(i as int));
            assert(es.take(i + 1).last() == es[i as int]);
            let ghost before = image_matches(es.take(i as int), phash@, max_distance as nat);
            let ghost after = image_matches(es.take(i + 1), phash@, max_distance as nat);
            match &self.entries[i].1 {
                Modality::Image(img) => {
                    let idx: u32 = self.entries[i].0;
                    proof {
                        lemma_hamming_laws(img.phash@, phash@, 8);
                    }
                    let d = hamming_distance(&img.phash, phash);
                    if d <= max_distance {
                        assert(after == before.push((idx, d)));
                        insert_by_distance(&mut out, idx, d);
                        proof {
                            vstd::seq_lib::to_multiset_build(before, (idx, d));
                        }
                    } else {
                        assert(after == before);
                    }
                },
                _ => {
                    assert(after == before);
                },
            }
            i = i + 1;
        }
        assert(es.take(n as int) =~= es);
        out
    }

    /// Blocks of structured entries that hold a field `field` equal to
    /// `value`, in index order.
    pub fn search_structured(&self, field: &str, value: &FieldValue) -> (r: Vec<u32>)
        ensures
            r@ == structured_matches(index_entries(self.entries@), field@, value@),
    {
        let ghost es = index_entries(self.entries@);
        let n: usize = self.entries.len();
        let mut out: Vec<u32> = Vec::new();
        let mut i: usize = 0;
        assert(es.take(0) =~= Seq::<ModalityEntry>::empty());
        while i < n
            invariant
                i <= n,
                n == self.entries@.len(),
                es == index_entries(self.entries@),
                out@ == structured_matches(es.take(i as int), field@, value@),
            decreases n - i,
        {
            assert(es.take(i + 1).drop_last() =~= es.take(i as int));
            assert(es.take(i + 1).last() == es[i as int]);
            match &self.entries[i].1 {
                Modality::Structured(s) => {
                    let ghost fs = s@;
                    let m: usize = s.fields.len();
                    let mut j: usize = 0;
                    let mut found = false;
                    while j < m
                        invariant
                            j <= m,
                            m == s.fields@.len(),
                            fs == s@,
                            found == exists|t: int| 0 <= t < j && #[trigger] fs[t].0 == field@ && value_eq(fs[t].1, value@),
                        decreases m - j,
                    {
                        let (k, v) = &s.fields[j];
                        assert(fs[j as int] == (k@, v@));
                        let hit = str_eq(k.as_str(), field) && field_value_eq(v, value);
                        proof {
                            if hit {
                                assert(fs[j as int].0 == field@ && value_eq(fs[j as int].1, value@));
                            } else {
                                assert(!(fs[j as int].0 == field@ && value_eq(fs[j as int].1, value@)));
                            }
                            if found {
                                let t = choose|t: int| 0 <= t < j && #[trigger] fs[t].0 == field@ && value_eq(fs[t].1, value@);
                                assert(0 <= t < j + 1 && fs[t].0 == field@ && value_eq(fs[t].1, value@));
                            }
                            if !found && !hit {
                                assert forall|t: int| 0 <= t < j + 1 implies !(#[trigger] fs[t].0 == field@ && value_eq(fs[t].1, value@)) by {
                                    if t < j {
                                        if fs[t].0 == field@ && value_eq(fs[t].1, value@) {
                                            assert(exists|u: int| 0 <= u < j && #[trigger] fs[u].0 == field@ && value_eq(fs[u].1, value@));
                                        }
                                    }
                                }
                            }
                        }
                        if hit {
                            found = true;
                        }
                        j = j + 1;
                    }
                    if found {
                        out.push(self.entries[i].0);
                    }
                },
                _ => {},
            }
            i = i + 1;
        }
        assert(es.take(n as int) =~= es);
        out
    }

    /// Number of entries of each modality.
    pub fn stats(&self) -> (r: ModalityStats)
        ensures
            r.total_entries == self.entries@.len(),
            r.text_count == count_tag(index_entries(self.entries@), 0),
            r.image_count == count_tag(index_entries(self.entries@), 1),
            r.audio_count == count_tag(index_entries(self.entries@), 2),
            r.structured_count == count_tag(index_entries(self.entries@), 3),
    {
        let ghost es = index_entries(self.entries@);
        let n: usize = self.entries.len();
        let mut text: usize = 0;
        let mut image: usize = 0;
        let mut audio: usize = 0;
        let mut structured: usize = 0;
        let mut i: usize = 0;
        assert(es.take(0) =~= Seq::<ModalityEntry>::empty());
        while i < n
            invariant
                i <= n,
                n == self.entries@.len(),
                es == index_entries(self.entries@),
                text == count_tag(es.take(i as int), 0),
                image == count_tag(es.take(i as int), 1),
                audio == count_tag(es.take(i as int), 2),
                structured == count_tag(es.take(i as int), 3),
            decreases n - i,
        {
            assert(es.take(i + 1).drop_last() =~= es.take(i as int));
            assert(es.take(i + 1).last() == es[i as int]);
            proof {
                lemma_count_tag_le(es.take(i as int), 0);
                lemma_count_tag_le(es.take(i as int), 1);
                lemma_count_tag_le(es.take(i as int), 2);
                lemma_count_tag_le(es.take(i as int), 3);
            }
            match &self.entries[i].1 {
                Modality::Text => text = text + 1,
                Modality::Image(_) => image = image + 1,
                Modality::Audio(_) => audio = audio + 1,
                Modality::Structured(_) => structured = structured + 1,
            }
            i = i + 1;
        }
        assert(es.take(n as int) =~= es);
        ModalityStats { total_entries: n, text_count: text, image_count: image, audio_count: audio, structured_count: structured }
    }
}

/// The modality stored with `tag` and a payload of `plen` bytes at `q`, if
/// the reader keeps it.
fn read_modality(data: &[u8], q: usize, tag: u8, plen: usize) -> (r: Option<Modality>)
    requires
        q + plen <= data@.len(),
    ensures
        match r {
            Some(m) => modality_at(data@, tag, q as int, plen as int) == Some(m@),
            None => modality_at(data@, tag, q as int, plen as int) is None,
        },
{
    let len: usize = data.len();
    assert(q + plen <= len);
    let payload: &[u8] = vstd::slice::slice_subrange(data, q, q + plen);
    if tag == 0 {
        Some(Modality::Text)
    } else if tag == 1 && plen >= 32 {
        let im = decode_image_meta(payload);
        assert(payload@.subrange(0, 2) =~= data@.subrange(q as int, q + 2));
        assert(payload@.subrange(2, 4) =~= data@.subrange(q + 2, q + 4));
        assert(payload@.subrange(4, 12) =~= data@.subrange(q + 4, q + 12));
        assert(payload@.subrange(12, 24) =~= data@.subrange(q + 12, q + 24));
        assert(payload@.subrange(24, 28) =~= data@.subrange(q + 24, q + 28));
        assert(im@ == image_meta_at(data@, q as int));
        Some(Modality::Image(im))
    } else if tag == 2 && plen >= 32 {
        let am = decode_audio_meta(payload);
        assert(payload@.subrange(0, 4) =~= data@.subrange(q as int, q + 4));
        assert(payload@.subrange(4, 6) =~= data@.subrange(q + 4, q + 6));
        assert(payload@.subrange(6, 22) =~= data@.subrange(q + 6, q + 22));
        assert(payload@.subrange(22, 26) =~= data@.subrange(q + 22, q + 26));
        assert(payload@.subrange(26, 30) =~= data@.subrange(q + 26, q + 30));
        assert(am@ == audio_meta_at(data@, q as int));
        Some(Modality::Audio(am))
    } else if tag == 3 {
        match decode_structured_meta(payload) {
            Some(sm) => Some(Modality::Structured(sm)),
            None => None,
        }
    } else {
        None
    }
}

impl ModalityIndex {
    /// The index a file holds (an empty one for anything that is not a
    /// `MOD1` file). Entries are registered in file order; a later entry for
    /// a block replaces an earlier one.
    pub fn from_bytes(data: &[u8]) -> (r: Self)
        ensures
            index_entries(r.entries@) == table(mod_file_entries(data@)),
            r.well_formed(),
    {
        let len: usize = data.len();
        let mut index = ModalityIndex::new();
        assert(index_entries(index.entries@) =~= Seq::<ModalityEntry>::empty());
        if len < 8 || data[0] != 0x4d || data[1] != 0x4f || data[2] != 0x44 || data[3] != 0x31 {
            proof {
                if len >= 8 {
                    assert(data@.subrange(0, 4) != mod_magic()) by {
                        if data@.subrange(0, 4) == mod_magic() {
                            assert(data@.subrange(0, 4)[0] == data@[0]);
                            assert(data@.subrange(0, 4)[1] == data@[1]);
                            assert(data@.subrange(0, 4)[2] == data@[2]);
                            assert(data@.subrange(0, 4)[3] == data@[3]);
                        }
                    }
                }
            }
            assert(index_entries(index.entries@) =~= table(Seq::<ModalityEntry>::empty()));
            return index;
        }
        assert(data@.subrange(0, 4) =~= mod_magic());
        let count: u32 = read_u32(data, 4);
        let mut pos: usize = 8;
        let mut k: u32 = 0;
        let ghost all = parse_modalities(data@, 8, count as nat);
        let ghost mut done: Seq<ModalityEntry> = Seq::empty();
        assert(done + all =~= all);
        loop
            invariant
                8 <= pos <= len,
                len == data@.len(),
                k <= count,
                all == parse_modalities(data@, 8, count as nat),
                all == done + parse_modalities(data@, pos as int, (count - k) as nat),
                index_entries(index.entries@) == table(done),
                index.well_formed(),
            ensures
                index_entries(index.entries@) == table(all),
                index.well_formed(),
            decreases count - k,
        {
            if k == count || len - pos < 7 {
                assert(parse_modalities(data@, pos as int, (count - k) as nat) =~= Seq::<ModalityEntry>::empty());
                assert(done + Seq::<ModalityEntry>::empty() =~= done);
                break;
            }
            let block_idx: u32 = read_u32(data, pos);
            let tag: u8 = data[pos + 4];
            let plen: usize = read_u16(data, pos + 5) as usize;
            assert(plen == u16_at(data@, pos + 5));
            let q: usize = pos + 7;
            if len - q < plen {
                assert(parse_modalities(data@, pos as int, (count - k) as nat) =~= Seq::<ModalityEntry>::empty());
                assert(done + Seq::<ModalityEntry>::empty() =~= done);
                break;
            }
            let ghost next = parse_modalities(data@, (q + plen) as int, (count - k - 1) as nat);
            let m: Option<Modality> = read_modality(data, q, tag, plen);
            match m {
                Some(md) => {
                    let ghost e = ModalityEntry { block_idx, modality: md@ };
                    assert(parse_modalities(data@, pos as int, (count - k) as nat) == seq![e] + next);
                    index.register(block_idx, md);
                    proof {
                        assert(done.push(e).drop_last() =~= done);
                        assert(done + (seq![e] + next) =~= done.push(e) + next);
                        done = done.push(e);
                    }
                },
                None => {
                    assert(parse_modalities(data@, pos as int, (count - k) as nat) == next);
                },
            }
            pos = q + plen;
            k = k + 1;
        }
        index
    }

    /// The index file of this index. The entry count is written as `u32`
    /// and a structured payload's length as `u16`, each keeping its low bytes.
    pub fn to_bytes(&self) -> (r: Vec<u8>)
        ensures
            r@ == mod_file_bytes(index_entries(self.entries@)),
    {
        let mut buf: Vec<u8> = Vec::new();
        buf.push(0x4d);
        buf.push(0x4f);
        buf.push(0x44);
        buf.push(0x31);
        push_le(&mut buf, self.entries.len() as u64, 4);
        let ghost es = index_entries(self.entries@);
        let ghost b0 = buf@;
        let n: usize = self.entries.len();
        let mut i: usize = 0;
        assert(es.take(0) =~= Seq::<ModalityEntry>::empty());
        while i < n
            invariant
                i <= n,
                n == self.entries@.len(),
                es == index_entries(self.entries@),
                buf@ == b0 + entries_bytes(es.take(i as int)),
            decreases n - i,
        {
            let ghost b = buf@;
            let (block_idx, m) = &self.entries[i];
            push_le(&mut buf, *block_idx as u64, 4);
            buf.push(m.tag());
            match m {
                Modality::Text => {
                    push_le(&mut buf, 0, 2);
                },
                Modality::Image(im) => {
                    push_le(&mut buf, 32, 2);
                    encode_image_meta(im, &mut buf);
                },
                Modality::Audio(am) => {
                    push_le(&mut buf, 32, 2);
                    encode_audio_meta(am, &mut buf);
                },
                Modality::Structured(sm) => {
                    let payload = encode_structured_meta(sm);
                    push_le(&mut buf, payload.len() as u64, 2);
                    let ghost b2 = buf@;
                    let pl: usize = payload.len();
                    let mut j: usize = 0;
                    while j < pl
                        invariant
                            j <= pl,
                            pl == payload@.len(),
                            buf@ =~= b2 + payload@.take(j as int),
                        decreases pl - j,
                    {
                        buf.push(payload[j]);
                        j = j + 1;
                    }
                    assert(payload@.take(pl as int) =~= payload@);
                },
            }
            assert(es[i as int] == ModalityEntry { block_idx: *block_idx, modality: m@ });
            assert(buf@ =~= b + entry_bytes(es[i as int]));
            proof {
                lemma_entries_bytes_push(es.take(i as int), es[i as int]);
                assert(es.take(i + 1) =~= es.take(i as int).push(es[i as int]));
            }
            i = i + 1;
        }
        assert(es.take(n as int) =~= es);
        assert(buf@ =~= mod_file_bytes(index_entries(self.entries@)));
        buf
    }
}

// ─── Reading back what was written ──────────────────

/// A string is written whole with a one-byte length.
pub open spec fn short_fits(s: Seq<char>) -> bool {
    encode_utf8(s).len() <= 255
}

/// A field is written whole: its key and string value fit in 255 bytes.
pub open spec fn field_fits(f: (Seq<char>, FieldValueV)) -> bool {
    short_fits(f.0) && match f.1 {
        FieldValueV::Str(s) => short_fits(s),
        _ => true,
    }
}

/// Structured data is written whole: fewer than 256 fields, each written whole.
pub open spec fn structured_fits(fs: Seq<(Seq<char>, FieldValueV)>) -> bool {
    fs.len() < 256 && forall|i: int| 0 <= i < fs.len() ==> field_fits(#[trigger] fs[i])
}

proof fn lemma_short_roundtrip(pre: Seq<u8>, s: Seq<char>, post: Seq<u8>)
    requires
        short_fits(s),
    ensures
        short_bytes(s).len() == 1 + encode_utf8(s).len(),
        (pre + short_bytes(s) + post)[pre.len() as int] as int == encode_utf8(s).len(),
        lossy_text((pre + short_bytes(s) + post).subrange(pre.len() as int + 1, pre.len() + 1 + encode_utf8(s).len() as int)) == s,
{
    broadcast use encode_utf8_valid_utf8, encode_utf8_decode_utf8;

    let t = encode_utf8(s);
    assert(t.take(t.len() as int) =~= t);
    let d = pre + short_bytes(s) + post;
    assert(d.subrange(pre.len() as int + 1, pre.len() + 1 + t.len() as int) =~= t);
}

proof fn lemma_field_roundtrip(pre: Seq<u8>, f: (Seq<char>, FieldValueV), post: Seq<u8>)
    requires
        field_fits(f),
    ensures
        ({
            let d = pre + field_bytes(f) + post;
            let p = pre.len() as int;
            let q = p + 1 + d[p] as int;
            &&& q < d.len()
            &&& q + 2 <= d.len()
            &&& q + 2 + d[q + 1] as int == p + field_bytes(f).len()
            &&& lossy_text(d.subrange(p + 1, q)) == f.0
            &&& field_value_at(d, d[q], q + 2, d[q + 1] as int) == Some(f.1)
        }),
{
    let d = pre + field_bytes(f) + post;
    let p = pre.len() as int;
    let kb = short_bytes(f.0);
    let rest = seq![value_tag(f.1)] + value_bytes(f.1);
    assert(field_bytes(f) == kb + rest);
    assert(d =~= pre + kb + (rest + post));
    lemma_short_roundtrip(pre, f.0, rest + post);
    let q = p + 1 + encode_utf8(f.0).len();
    let p2 = pre + kb;
    assert(d =~= p2 + rest + post);
    assert(d[q] == value_tag(f.1));
    match f.1 {
        FieldValueV::Str(s) => {
            let sb = short_bytes(s);
            assert(rest == seq![0u8] + sb);
            assert(d =~= (p2 + seq![0u8]) + sb + post);
            lemma_short_roundtrip(p2 + seq![0u8], s, post);
        },
        FieldValueV::Int(i) => {
            lemma_pow256_values();
            lemma_le_bytes_len((i as u64) as nat, 8);
            lemma_le_value_of_bytes((i as u64) as nat, 8);
            assert(d.subrange(q + 2, q + 10) =~= le_bytes((i as u64) as nat, 8));
            assert(((i as u64) as i64) == i) by (bit_vector);
        },
        FieldValueV::Float(b) => {
            lemma_pow256_values();
            lemma_le_bytes_len(b as nat, 8);
            lemma_le_value_of_bytes(b as nat, 8);
            assert(d.subrange(q + 2, q + 10) =~= le_bytes(b as nat, 8));
        },
        FieldValueV::Bool(b) => {},
    }
}

proof fn lemma_parse_fields(pre: Seq<u8>, fs: Seq<(Seq<char>, FieldValueV)>, post: Seq<u8>)
    requires
        forall|i: int| 0 <= i < fs.len() ==> field_fits(#[trigger] fs[i]),
    ensures
        parse_fields(pre + fields_bytes(fs) + post, pre.len() as int, fs.len()) == fs,
    decreases fs.len(),
{
    let d = pre + fields_bytes(fs) + post;
    if fs.len() > 0 {
        let f = fs[0];
        let rest = fs.drop_first();
        assert(field_fits(fs[0]));
        assert forall|i: int| 0 <= i < rest.len() implies field_fits(#[trigger] rest[i]) by {
            assert(rest[i] == fs[i + 1]);
        }
        lemma_field_roundtrip(pre, f, fields_bytes(rest) + post);
        assert(d =~= pre + field_bytes(f) + (fields_bytes(rest) + post));
        lemma_parse_fields(pre + field_bytes(f), rest, post);
        assert(d =~= (pre + field_bytes(f)) + fields_bytes(rest) + post);
        assert(seq![f] + rest =~= fs);
    }
}

/// Law: structured data written whole reads back as the same fields.
pub proof fn lemma_structured_roundtrip(fs: Seq<(Seq<char>, FieldValueV)>)
    requires
        structured_fits(fs),
    ensures
        structured_from(structured_bytes(fs)) == Some(fs),
{
    let d = structured_bytes(fs);
    assert(d[0] as nat == fs.len());
    lemma_parse_fields(seq![(fs.len() % 256) as u8], fs, Seq::empty());
    assert(seq![(fs.len() % 256) as u8] + fields_bytes(fs) + Seq::<u8>::empty() =~= d);
}

/// An entry is written whole: its metadata arrays have their sizes and a
/// structured payload is written whole in under 65536 bytes.
pub open spec fn entry_fits(e: ModalityEntry) -> bool {
    match e.modality {
        ModalityV::Text => true,
        ModalityV::Image(m) => m.phash.len() == 8 && m.color_histogram.len() == 12,
        ModalityV::Audio(m) => m.spectral_fingerprint.len() == 16,
        ModalityV::Structured(fs) => structured_fits(fs) && structured_bytes(fs).len() < 0x1_0000,
    }
}

proof fn lemma_image_payload(pre: Seq<u8>, m: ImageMetaV, post: Seq<u8>)
    requires
        m.phash.len() == 8,
        m.color_histogram.len() == 12,
    ensures
        ({
            let d = pre + (le_bytes(32, 2) + image_v_bytes(m)) + post;
            let p = pre.len() as int;
            &&& u16_at(d, p) == 32
            &&& image_v_bytes(m).len() == 32
            &&& image_meta_at(d, p + 2) == m
        }),
{
    let body = image_v_bytes(m);
    let d = pre + (le_bytes(32, 2) + body) + post;
    let p3 = pre + le_bytes(32, 2);
    lemma_pow256_values();
    lemma_le_bytes_len(32, 2);
    lemma_le_bytes_len(m.width as nat, 2);
    lemma_le_bytes_len(m.height as nat, 2);
    lemma_le_bytes_len(m.content_hash as nat, 4);
    assert(d =~= pre + le_bytes(32, 2) + (body + post));
    assert(le_bytes(32, 2).subrange(0, 2) =~= le_bytes(32, 2));
    lemma_u16_field_at(pre, le_bytes(32, 2), body + post, 0, 32);
    assert(d =~= p3 + body + post);
    assert(body.subrange(0, 2) =~= le_bytes(m.width as nat, 2));
    assert(body.subrange(2, 4) =~= le_bytes(m.height as nat, 2));
    assert(body.subrange(24, 28) =~= le_bytes(m.content_hash as nat, 4));
    lemma_u16_field_at(p3, body, post, 0, m.width as nat);
    lemma_u16_field_at(p3, body, post, 2, m.height as nat);
    lemma_u32_field(p3, body, post, 24, m.content_hash as nat);
    let q = p3.len() as int;
    assert(d.subrange(q + 4, q + 12) =~= m.phash);
    assert(d.subrange(q + 12, q + 24) =~= m.color_histogram);
}

proof fn lemma_audio_payload(pre: Seq<u8>, m: AudioMetaV, post: Seq<u8>)
    requires
        m.spectral_fingerprint.len() == 16,
    ensures
        ({
            let d = pre + (le_bytes(32, 2) + audio_meta_bytes(m)) + post;
            let p = pre.len() as int;
            &&& u16_at(d, p) == 32
            &&& audio_meta_bytes(m).len() == 32
            &&& audio_meta_at(d, p + 2) == m
        }),
{
    let body = audio_meta_bytes(m);
    let d = pre + (le_bytes(32, 2) + body) + post;
    let p3 = pre + le_bytes(32, 2);
    lemma_pow256_values();
    lemma_le_bytes_len(32, 2);
    lemma_le_bytes_len(m.duration_ms as nat, 4);
    lemma_le_bytes_len(m.sample_rate as nat, 2);
    lemma_le_bytes_len(m.peak_freq_bits as nat, 4);
    lemma_le_bytes_len(m.bpm_estimate_bits as nat, 4);
    assert(d =~= pre + le_bytes(32, 2) + (body + post));
    assert(le_bytes(32, 2).subrange(0, 2) =~= le_bytes(32, 2));
    lemma_u16_field_at(pre, le_bytes(32, 2), body + post, 0, 32);
    assert(d =~= p3 + body + post);
    assert(body.subrange(0, 4) =~= le_bytes(m.duration_ms as nat, 4));
    assert(body.subrange(4, 6) =~= le_bytes(m.sample_rate as nat, 2));
    assert(body.subrange(22, 26) =~= le_bytes(m.peak_freq_bits as nat, 4));
    assert(body.subrange(26, 30) =~= le_bytes(m.bpm_estimate_bits as nat, 4));
    lemma_u32_field(p3, body, post, 0, m.duration_ms as nat);
    lemma_u16_field_at(p3, body, post, 4, m.sample_rate as nat);
    lemma_u32_field(p3, body, post, 22, m.peak_freq_bits as nat);
    lemma_u32_field(p3, body, post, 26, m.bpm_estimate_bits as nat);
    let q = p3.len() as int;
    assert(d.subrange(q + 6, q + 22) =~= m.spectral_fingerprint);
}

proof fn lemma_structured_payload(pre: Seq<u8>, fs: Seq<(Seq<char>, FieldValueV)>, post: Seq<u8>)
    requires
        structured_fits(fs),
        structured_bytes(fs).len() < 0x1_0000,
    ensures
        ({
            let body = structured_bytes(fs);
            let d = pre + (le_bytes(body.len(), 2) + body) + post;
            let p = pre.len() as int;
            &&& u16_at(d, p) == body.len()
            &&& structured_from(d.subrange(p + 2, p + 2 + body.len())) == Some(fs)
        }),
{
    let body = structured_bytes(fs);
    let d = pre + (le_bytes(body.len(), 2) + body) + post;
    let p = pre.len() as int;
    lemma_pow256_values();
    lemma_le_bytes_len(body.len(), 2);
    assert(d =~= pre + le_bytes(body.len(), 2) + (body + post));
    assert(le_bytes(body.len(), 2).subrange(0, 2) =~= le_bytes(body.len(), 2));
    lemma_u16_field_at(pre, le_bytes(body.len(), 2), body + post, 0, body.len());
    assert(d.subrange(p + 2, p + 2 + body.len()) =~= body);
    lemma_structured_roundtrip(fs);
}

/// The payload of a modality reads back as the modality.
proof fn lemma_payload(pre: Seq<u8>, m: ModalityV, post: Seq<u8>)
    requires
        entry_fits(ModalityEntry { block_idx: 0, modality: m }),
    ensures
        ({
            let d = pre + modality_payload(m) + post;
            let q = pre.len() as int;
            &&& u16_at(d, q) + 2 == modality_payload(m).len()
            &&& modality_at(d, modality_tag(m), q + 2, u16_at(d, q) as int) == Some(m)
        }),
{
    let d = pre + modality_payload(m) + post;
    let q = pre.len() as int;
    match m {
        ModalityV::Text => {
            lemma_pow256_values();
            lemma_le_bytes_len(0, 2);
            assert(le_bytes(0, 2).subrange(0, 2) =~= le_bytes(0, 2));
            lemma_u16_field_at(pre, le_bytes(0, 2), post, 0, 0);
        },
        ModalityV::Image(im) => {
            lemma_image_payload(pre, im, post);
            lemma_le_bytes_len(32, 2);
        },
        ModalityV::Audio(am) => {
            lemma_audio_payload(pre, am, post);
            lemma_le_bytes_len(32, 2);
        },
        ModalityV::Structured(fs) => {
            lemma_structured_payload(pre, fs, post);
            lemma_le_bytes_len(structured_bytes(fs).len(), 2);
        },
    }
}

#[verifier::rlimit(30)]
proof fn lemma_entry_roundtrip(pre: Seq<u8>, e: ModalityEntry, post: Seq<u8>)
    requires
        entry_fits(e),
    ensures
        ({
            let d = pre + entry_bytes(e) + post;
            let p = pre.len() as int;
            &&& p + 7 <= d.len()
            &&& p + 7 + u16_at(d, p + 5) == p + entry_bytes(e).len()
            &&& u32_at(d, p) == e.block_idx
            &&& modality_at(d, d[p + 4], p + 7, u16_at(d, p + 5) as int) == Some(e.modality)
        }),
{
    let d = pre + entry_bytes(e) + post;
    let p = pre.len() as int;
    let x = entry_bytes(e);
    let head = le_bytes(e.block_idx as nat, 4) + seq![modality_tag(e.modality)];
    let pay = modality_payload(e.modality);
    lemma_pow256_values();
    lemma_le_bytes_len(e.block_idx as nat, 4);
    assert(x.subrange(0, 4) =~= le_bytes(e.block_idx as nat, 4));
    lemma_u32_field(pre, x, post, 0, e.block_idx as nat);
    assert(x =~= head + pay);
    let p2 = pre + head;
    assert(d =~= p2 + pay + post);
    assert(d[p + 4] == modality_tag(e.modality));
    assert(entry_fits(ModalityEntry { block_idx: 0, modality: e.modality }));
    lemma_payload(p2, e.modality, post);
}

proof fn lemma_u16_field_at(pre: Seq<u8>, x: Seq<u8>, post: Seq<u8>, a: int, v: nat)
    requires
        0 <= a,
        a + 2 <= x.len(),
        x.subrange(a, a + 2) == le_bytes(v, 2),
        v < 0x1_0000,
    ensures
        u16_at(pre + x + post, pre.len() + a) == v,
{
    lemma_pow256_values();
    lemma_sub(pre, x, post, a, a + 2);
    lemma_le_value_of_bytes(v, 2);
}

proof fn lemma_parse_modalities(pre: Seq<u8>, es: Seq<ModalityEntry>, post: Seq<u8>)
    requires
        forall|i: int| 0 <= i < es.len() ==> entry_fits(#[trigger] es[i]),
    ensures
        parse_modalities(pre + entries_bytes(es) + post, pre.len() as int, es.len()) == es,
    decreases es.len(),
{
    let d = pre + entries_bytes(es) + post;
    if es.len() > 0 {
        let e = es[0];
        let rest = es.drop_first();
        assert(entry_fits(es[0]));
        assert forall|i: int| 0 <= i < rest.len() implies entry_fits(#[trigger] rest[i]) by {
            assert(rest[i] == es[i + 1]);
        }
        lemma_entry_roundtrip(pre, e, entries_bytes(rest) + post);
        assert(d =~= pre + entry_bytes(e) + (entries_bytes(rest) + post));
        lemma_parse_modalities(pre + entry_bytes(e), rest, post);
        assert(d =~= (pre + entry_bytes(e)) + entries_bytes(rest) + post);
        assert(seq![e] + rest =~= es);
    }
}

/// Law: an index file written from entries with distinct blocks, each written
/// whole, loads back as the same entries in the same order.
pub proof fn lemma_index_roundtrip(es: Seq<ModalityEntry>)
    requires
        es.len() < 0x1_0000_0000,
        keys_unique(es),
        forall|i: int| 0 <= i < es.len() ==> entry_fits(#[trigger] es[i]),
    ensures
        table(mod_file_entries(mod_file_bytes(es))) == es,
{
    let d = mod_file_bytes(es);
    let h = mod_magic() + le_bytes(es.len(), 4);
    lemma_pow256_values();
    lemma_le_bytes_len(es.len(), 4);
    assert(d.subrange(0, 4) =~= mod_magic());
    assert(h.subrange(4, 8) =~= le_bytes(es.len(), 4));
    lemma_u32_field(Seq::empty(), h, entries_bytes(es), 4, es.len());
    assert(Seq::<u8>::empty() + h + entries_bytes(es) =~= d);
    lemma_parse_modalities(h, es, Seq::empty());
    assert(h + entries_bytes(es) + Seq::<u8>::empty() =~= d);
    lemma_table_of_unique(es);
}

/// Inserts `(idx, d)` after every pair whose distance is at most `d`.
fn insert_by_distance(out: &mut Vec<(u32, u32)>, idx: u32, d: u32)
    requires
        forall|a: int, b: int| 0 <= a < b < old(out)@.len() ==> old(out)@[a].1 <= old(out)@[b].1,
    ensures
        final(out)@.to_multiset() == old(out)@.to_multiset().insert((idx, d)),
        forall|a: int, b: int| 0 <= a < b < final(out)@.len() ==> final(out)@[a].1 <= final(out)@[b].1,
{
    let m: usize = out.len();
    let mut pos: usize = 0;
    while pos < m && out[pos].1 <= d
        invariant
            pos <= m,
            m == out@.len(),
            forall|a: int| 0 <= a < pos ==> #[trigger] out@[a].1 <= d,
        decreases m - pos,
    {
        pos = pos + 1;
    }
    let ghost prev = out@;
    out.insert(pos, (idx, d));
    assert(out@ == prev.insert(pos as int, (idx, d)));
    proof {
        vstd::seq_lib::to_multiset_insert(prev, pos as int, (idx, d));
    }
    assert forall|a: int, b: int| 0 <= a < b < out@.len() implies out@[a].1 <= out@[b].1 by {
        if b < pos {
        } else if a < pos && b == pos {
        } else if a < pos {
            assert(out@[b] == prev[b - 1]);
        } else if a == pos {
            assert(out@[b] == prev[b - 1]);
            assert(prev[pos as int].1 > d);
            if b - 1 > pos {
                assert(prev[pos as int].1 <= prev[b - 1].1);
            }
        } else {
            assert(out@[a] == prev[a - 1]);
            assert(out@[b] == prev[b - 1]);
        }
    }
}

/// Little-endian `u32` at `off`.
pub fn read_u32(b: &[u8], off: usize) -> (r: u32)
    requires
        off + 4 <= b@.len(),
    ensures
        r == le_value(b@.subrange(off as int, off + 4)),
{
    proof {
        lemma_pow256_values();
        lemma_le_value_bound(b@.subrange(off as int, off + 4));
    }
    read_le(b, off, 4) as u32
}

/// Little-endian `u16` at `off`.
pub fn read_u16(b: &[u8], off: usize) -> (r: u16)
    requires
        off + 2 <= b@.len(),
    ensures
        r == le_value(b@.subrange(off as int, off + 2)),
{
    proof {
        lemma_pow256_values();
        lemma_le_value_bound(b@.subrange(off as int, off + 2));
    }
    read_le(b, off, 2) as u16
}


/// Law: an image record reads back as the metadata it was written from,
/// whatever follows it.
pub proof fn lemma_image_meta_roundtrip(m: ImageMeta, rest: Seq<u8>)
    ensures
        (image_meta_bytes(m) + rest).len() >= 28,
        image_meta_at(image_meta_bytes(m) + rest, 0) == m@,
{
    let body = image_meta_bytes(m);
    let e = Seq::<u8>::empty();
    let d = body + rest;
    lemma_pow256_values();
    lemma_le_bytes_len(m.width as nat, 2);
    lemma_le_bytes_len(m.height as nat, 2);
    lemma_le_bytes_len(m.content_hash as nat, 4);
    assert(e + body + rest =~= d);
    assert(body.subrange(0, 2) =~= le_bytes(m.width as nat, 2));
    assert(body.subrange(2, 4) =~= le_bytes(m.height as nat, 2));
    assert(body.subrange(24, 28) =~= le_bytes(m.content_hash as nat, 4));
    lemma_u16_field_at(e, body, rest, 0, m.width as nat);
    lemma_u16_field_at(e, body, rest, 2, m.height as nat);
    lemma_u32_field(e, body, rest, 24, m.content_hash as nat);
    assert(d.subrange(4, 12) =~= m.phash@);
    assert(d.subrange(12, 24) =~= m.color_histogram@);
}

/// Law: an audio record reads back as the metadata it was written from,
/// whatever follows it.
pub proof fn lemma_audio_meta_roundtrip(m: AudioMetaV, rest: Seq<u8>)
    requires
        m.spectral_fingerprint.len() == 16,
    ensures
        (audio_meta_bytes(m) + rest).len() >= 30,
        audio_meta_at(audio_meta_bytes(m) + rest, 0) == m,
{
    let body = audio_meta_bytes(m);
    let e = Seq::<u8>::empty();
    let d = body + rest;
    lemma_pow256_values();
    lemma_le_bytes_len(m.duration_ms as nat, 4);
    lemma_le_bytes_len(m.sample_rate as nat, 2);
    lemma_le_bytes_len(m.peak_freq_bits as nat, 4);
    lemma_le_bytes_len(m.bpm_estimate_bits as nat, 4);
    assert(e + body + rest =~= d);
    assert(body.subrange(0, 4) =~= le_bytes(m.duration_ms as nat, 4));
    assert(body.subrange(4, 6) =~= le_bytes(m.sample_rate as nat, 2));
    assert(body.subrange(22, 26) =~= le_bytes(m.peak_freq_bits as nat, 4));
    assert(body.subrange(26, 30) =~= le_bytes(m.bpm_estimate_bits as nat, 4));
    lemma_u32_field(e, body, rest, 0, m.duration_ms as nat);
    lemma_u16_field_at(e, body, rest, 4, m.sample_rate as nat);
    lemma_u32_field(e, body, rest, 22, m.peak_freq_bits as nat);
    lemma_u32_field(e, body, rest, 26, m.bpm_estimate_bits as nat);
    assert(d.subrange(6, 22) =~= m.spectral_fingerprint);
}

} // verus!
