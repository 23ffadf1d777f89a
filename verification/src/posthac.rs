//! PostHAC container: the hash-grid hyperprior sidecar that range-codes a
//! scene's 8-bit attribute codes.
//!
//! This module holds the byte layout of a `.pthc` stream (header, weights,
//! positions, compressed words) and the hash-grid bucket function. Every
//! `f32` of the wire format travels here as its IEEE-754 bit pattern, so the
//! framing is exact: what is written is what is read back, bit for bit.
use vstd::prelude::*;
use vstd::string::*;
use crate::bytes::{le_u32, u32_le, read_u32_le, push_u32_le, lemma_u32_le_roundtrip, words_le, words_at, lemma_words_le_len, lemma_words_le_concat, lemma_words_roundtrip, push_words, read_words};
use crate::text::lit;

verus! {

/// Magic identifier ("PTHC" little-endian).
pub const POSTHAC_MAGIC: u32 = 0x4348_5450;

/// Bitstream wire version.
pub const POSTHAC_VERSION: u32 = 1;

/// PostHAC codec errors.
#[derive(Debug)]
pub enum PostHacError {
    /// Underlying read failed (the stream ended early).
    Io(String),
    /// Stream does not begin with the PostHAC magic.
    BadMagic,
    /// PostHAC version differs from the one we support.
    UnsupportedVersion(u32),
    /// Truncated stream: could not read the named header field.
    Truncated(&'static str),
    /// Range coder failed.
    RangeCoder(String),
    /// Model dimensions disagree with the bitstream.
    ShapeMismatch {
        /// Expected shape, as `(N, D)` where N is splats and D attrs.
        expected: (u32, u32),
        /// Shape actually present in the bitstream.
        got: (u32, u32),
    },
}

/// Hyperprior architecture parameters.
#[derive(Debug, Clone, Copy, PartialEq, Eq, Structural)]
pub struct HyperpriorConfig {
    /// Number of hash-grid resolution levels.
    pub grid_levels: u32,
    /// Features per level.
    pub features_per_level: u32,
    /// Log2 of hash-table entries per level.
    pub log2_hashmap_size: u32,
    /// Base grid resolution (level 0).
    pub base_resolution: u32,
    /// MLP hidden size.
    pub mlp_hidden: u32,
    /// Number of attribute columns being modeled.
    pub n_attrs: u32,
}

impl HyperpriorConfig {
    /// The "small grid" configuration: 8 levels of 4 features over 2^15
    /// entries, a 64-wide MLP, 56 attribute columns.
    pub fn default_small() -> (c: Self)
        ensures
            c == (HyperpriorConfig {
                grid_levels: 8,
                features_per_level: 4,
                log2_hashmap_size: 15,
                base_resolution: 16,
                mlp_hidden: 64,
                n_attrs: 56,
            }),
    {
        HyperpriorConfig {
            grid_levels: 8,
            features_per_level: 4,
            log2_hashmap_size: 15,
            base_resolution: 16,
            mlp_hidden: 64,
            n_attrs: 56,
        }
    }
}

/// Serialized hyperprior weights, each `f32` held as its bit pattern.
#[derive(Debug, Clone)]
pub struct HyperpriorWeights {
    /// Per-level hash tables, `grid_levels * 2^log2_hashmap_size * features_per_level` values.
    pub grid_tables: Vec<u32>,
    /// MLP first-layer weight matrix, row-major.
    pub fc1_w: Vec<u32>,
    /// MLP first-layer bias.
    pub fc1_b: Vec<u32>,
    /// MLP second-layer weight matrix.
    pub fc2_w: Vec<u32>,
    /// MLP second-layer bias.
    pub fc2_b: Vec<u32>,
}

/// Header describing the PostHAC payload; `f32` fields hold bit patterns.
#[derive(Debug, Clone)]
pub struct PostHacHeader {
    /// Number of splats.
    pub n: u32,
    /// Attribute columns per splat (D).
    pub d: u32,
    /// SH degree (0..3).
    pub sh_degree: u8,
    /// Per-column quantization minima.
    pub attr_mn: Vec<u32>,
    /// Per-column quantization maxima.
    pub attr_mx: Vec<u32>,
    /// Position bbox min (x, y, z).
    pub pos_mn: [u32; 3],
    /// Position bbox max.
    pub pos_mx: [u32; 3],
    /// Hyperprior architecture.
    pub config: HyperpriorConfig,
}

/// A whole `.pthc` stream, parsed.
pub struct Container {
    /// Bitstream header (scene metadata + hyperprior architecture).
    pub header: PostHacHeader,
    /// Hyperprior weights.
    pub weights: HyperpriorWeights,
    /// Per-splat positions, flat `[x0, y0, z0, x1, ...]`, as bit patterns.
    pub positions: Vec<u32>,
    /// Range-coded attribute codes.
    pub compressed: Vec<u32>,
}

// ---------- byte model ----------

/// The six configuration words, in wire order.
pub open spec fn config_words(c: HyperpriorConfig) -> Seq<u32> {
    seq![
        c.grid_levels,
        c.features_per_level,
        c.log2_hashmap_size,
        c.base_resolution,
        c.mlp_hidden,
        c.n_attrs,
    ]
}

/// The configuration stored as six words from byte `at` on.
pub open spec fn config_at(b: Seq<u8>, at: int) -> HyperpriorConfig {
    HyperpriorConfig {
        grid_levels: le_u32(b, at) as u32,
        features_per_level: le_u32(b, at + 4) as u32,
        log2_hashmap_size: le_u32(b, at + 8) as u32,
        base_resolution: le_u32(b, at + 12) as u32,
        mlp_hidden: le_u32(b, at + 16) as u32,
        n_attrs: le_u32(b, at + 20) as u32,
    }
}

/// Byte length of a header with `d` attribute columns.
pub open spec fn header_len(d: int) -> int {
    68 + 8 * d
}

/// The fixed twenty-byte start of a header: magic, version, `n`, `d`, the
/// SH degree and three reserved zero bytes.
pub open spec fn header_head(h: PostHacHeader) -> Seq<u8> {
    u32_le(POSTHAC_MAGIC) + u32_le(POSTHAC_VERSION) + u32_le(h.n) + u32_le(h.d) + seq![
        h.sh_degree,
        0u8,
        0u8,
        0u8,
    ]
}

/// The end of a header: position bounds and configuration.
pub open spec fn header_tail(h: PostHacHeader) -> Seq<u8> {
    words_le(h.pos_mn@) + words_le(h.pos_mx@) + words_le(config_words(h.config))
}

/// The bytes `write_header` emits for `h`.
#[verifier::opaque]
pub open spec fn header_bytes(h: PostHacHeader) -> Seq<u8> {
    header_head(h) + words_le(h.attr_mn@) + words_le(h.attr_mx@) + header_tail(h)
}

/// How reading a header at byte `at` of `b` ends.
pub enum HeaderRead {
    /// Fewer than four bytes for the magic.
    TruncatedMagic,
    /// The magic is wrong.
    BadMagic,
    /// Fewer than four bytes for the version.
    TruncatedVersion,
    /// The version is not [`POSTHAC_VERSION`]; carries it.
    BadVersion(u32),
    /// The stream ends inside the rest of the header.
    Eof,
    /// A whole header is present.
    Complete,
}

/// The outcome of reading a header at byte `at` of `b`.
pub open spec fn header_read(b: Seq<u8>, at: int) -> HeaderRead {
    if b.len() < at + 4 {
        HeaderRead::TruncatedMagic
    } else if le_u32(b, at) != POSTHAC_MAGIC {
        HeaderRead::BadMagic
    } else if b.len() < at + 8 {
        HeaderRead::TruncatedVersion
    } else if le_u32(b, at + 4) != POSTHAC_VERSION {
        HeaderRead::BadVersion(le_u32(b, at + 4) as u32)
    } else if b.len() < at + 16 || b.len() < at + header_len(le_u32(b, at + 12) as int) {
        HeaderRead::Eof
    } else {
        HeaderRead::Complete
    }
}

/// `h` is the header stored at byte `at` of `b`.
pub open spec fn header_at(b: Seq<u8>, at: int, h: PostHacHeader) -> bool {
    let d = le_u32(b, at + 12) as int;
    &&& h.n == le_u32(b, at + 8)
    &&& h.d == d
    &&& h.sh_degree == b[at + 16]
    &&& h.attr_mn@ == words_at(b, at + 20, d)
    &&& h.attr_mx@ == words_at(b, at + 20 + 4 * d, d)
    &&& h.pos_mn@ == words_at(b, at + 20 + 8 * d, 3)
    &&& h.pos_mx@ == words_at(b, at + 32 + 8 * d, 3)
    &&& h.config == config_at(b, at + 44 + 8 * d)
}

/// A header whose column vectors hold exactly `d` values.
pub open spec fn header_well_formed(h: PostHacHeader) -> bool {
    h.attr_mn@.len() == h.d && h.attr_mx@.len() == h.d
}

/// Number of hash-table values in the grid.
pub open spec fn table_len(c: HyperpriorConfig) -> int {
    c.grid_levels * vstd::arithmetic::power2::pow2(c.log2_hashmap_size as nat) * c.features_per_level
}

/// Number of grid features fed to the MLP.
pub open spec fn n_feats(c: HyperpriorConfig) -> int {
    c.grid_levels * c.features_per_level
}

/// Number of MLP outputs (a mean and a log-sigma per column).
pub open spec fn out_size(c: HyperpriorConfig) -> int {
    2 * c.n_attrs
}

/// Every weight-array size of `c` is computable without overflow.
pub open spec fn weights_fit(c: HyperpriorConfig) -> bool {
    &&& (c.log2_hashmap_size as int) < usize::BITS
    &&& c.grid_levels * vstd::arithmetic::power2::pow2(c.log2_hashmap_size as nat) <= usize::MAX
    &&& table_len(c) <= usize::MAX
    &&& n_feats(c) <= usize::MAX
    &&& out_size(c) <= usize::MAX
    &&& c.mlp_hidden * n_feats(c) <= usize::MAX
    &&& out_size(c) * c.mlp_hidden <= usize::MAX
}

/// Number of words the weights of `c` take on the wire.
pub open spec fn weights_words(c: HyperpriorConfig) -> int {
    table_len(c) + c.mlp_hidden * n_feats(c) + c.mlp_hidden + out_size(c) * c.mlp_hidden
        + out_size(c)
}

/// Every weight array of `w` has the length `c` calls for.
pub open spec fn weights_shape(c: HyperpriorConfig, w: HyperpriorWeights) -> bool {
    &&& w.grid_tables@.len() == table_len(c)
    &&& w.fc1_w@.len() == c.mlp_hidden * n_feats(c)
    &&& w.fc1_b@.len() == c.mlp_hidden
    &&& w.fc2_w@.len() == out_size(c) * c.mlp_hidden
    &&& w.fc2_b@.len() == out_size(c)
}

/// The bytes `write_weights` emits.
#[verifier::opaque]
pub open spec fn weights_bytes(w: HyperpriorWeights) -> Seq<u8> {
    words_le(w.grid_tables@) + words_le(w.fc1_w@) + words_le(w.fc1_b@) + words_le(w.fc2_w@)
        + words_le(w.fc2_b@)
}

/// `w` is the weights block of `c` stored from byte `at` on.
pub open spec fn weights_at(b: Seq<u8>, at: int, c: HyperpriorConfig, w: HyperpriorWeights) -> bool {
    let t = table_len(c);
    let f1 = c.mlp_hidden * n_feats(c);
    let h = c.mlp_hidden as int;
    let f2 = out_size(c) * c.mlp_hidden;
    &&& w.grid_tables@ == words_at(b, at, t)
    &&& w.fc1_w@ == words_at(b, at + 4 * t, f1)
    &&& w.fc1_b@ == words_at(b, at + 4 * (t + f1), h)
    &&& w.fc2_w@ == words_at(b, at + 4 * (t + f1 + h), f2)
    &&& w.fc2_b@ == words_at(b, at + 4 * (t + f1 + h + f2), out_size(c))
}

/// The error a read reports when the stream ends early.
pub open spec fn is_eof(e: PostHacError) -> bool {
    e matches PostHacError::Io(m) && m@ == "failed to fill whole buffer"@
}

// ---------- lemmas on the word encoding ----------

// ---------- hash grid ----------

/// The mixed corner coordinates before reduction: each coordinate times its
/// prime (wrapping), combined with XOR.
pub open spec fn hash3_mix(coords: [i64; 3]) -> i64 {
    coords@[0].wrapping_mul(1i64) ^ coords@[1].wrapping_mul(2_654_435_761i64) ^ coords@[2].wrapping_mul(
        805_459_861i64,
    )
}

/// Hashes three corner coordinates into a bucket of a table with
/// `hashmap_size` entries: the mixed value reduced with a non-negative
/// (Euclidean) remainder.
pub fn hash3(coords: [i64; 3], hashmap_size: usize) -> (r: usize)
    requires
        hashmap_size as i64 != 0,
        !(hashmap_size as i64 == -1 && hash3_mix(coords) == i64::MIN),
    ensures
        r as int == (hash3_mix(coords) as int) % (hashmap_size as i64 as int),
        hashmap_size <= i64::MAX ==> r < hashmap_size,
{
    let h0 = coords[0].wrapping_mul(1i64);
    let h1 = coords[1].wrapping_mul(2_654_435_761i64);
    let h2 = coords[2].wrapping_mul(805_459_861i64);
    let h = h0 ^ h1 ^ h2;
    let m = hashmap_size as i64;
    let rem = match h.checked_rem_euclid(m) {
        Some(x) => x,
        None => 0,
    };
    proof {
        assert(h == hash3_mix(coords));
        assert(rem as int == (h as int) % (m as int));
        lemma_euclid_bounds(h as int, m as int);
        lemma_size_cast(hashmap_size, m, rem);
    }
    rem as usize
}

proof fn lemma_euclid_bounds(a: int, b: int)
    requires
        b != 0,
    ensures
        0 <= a % b,
        b > 0 ==> a % b < b,
{
}

proof fn lemma_size_cast(hashmap_size: usize, m: i64, rem: i64)
    requires
        m == hashmap_size as i64,
        m != 0,
        0 <= rem,
        m > 0 ==> rem < m,
    ensures
        (rem as usize) as int == rem as int,
        hashmap_size as int <= i64::MAX ==> (rem as int) < hashmap_size as int,
{
    assert((rem as usize) as u64 == rem as u64) by (bit_vector)
        requires
            rem >= 0,
            m != 0,
            m == hashmap_size as i64,
            m > 0 ==> rem < m,
    ;
    assert((hashmap_size as u64) <= 0x7fff_ffff_ffff_ffffu64 ==> (m > 0 && m as u64 == hashmap_size as u64))
        by (bit_vector)
        requires
            m == hashmap_size as i64,
            m != 0,
    ;
}

// ---------- header ----------

/// Writes the header.
pub fn write_header(out: &mut Vec<u8>, h: &PostHacHeader)
    ensures
        final(out)@ == old(out)@ + header_bytes(*h),
{
    push_u32_le(out, POSTHAC_MAGIC);
    push_u32_le(out, POSTHAC_VERSION);
    push_u32_le(out, h.n);
    push_u32_le(out, h.d);
    out.push(h.sh_degree);
    out.push(0u8);
    out.push(0u8);
    out.push(0u8);
    push_words(out, h.attr_mn.as_slice());
    push_words(out, h.attr_mx.as_slice());
    push_words(out, &h.pos_mn);
    push_words(out, &h.pos_mx);
    let c = h.config;
    let cw: [u32; 6] = [
        c.grid_levels,
        c.features_per_level,
        c.log2_hashmap_size,
        c.base_resolution,
        c.mlp_hidden,
        c.n_attrs,
    ];
    proof {
        assert(cw@ =~= config_words(c));
    }
    push_words(out, &cw);
    proof {
        reveal(header_bytes);
        assert(out@ =~= old(out)@ + header_bytes(*h));
    }
}

fn read_triple(bytes: &[u8], at: usize) -> (r: [u32; 3])
    requires
        at + 12 <= bytes@.len(),
    ensures
        r@ == words_at(bytes@, at as int, 3),
{
    assert(bytes@.len() == bytes.len());
    let r = [read_u32_le(bytes, at), read_u32_le(bytes, at + 4), read_u32_le(bytes, at + 8)];
    assert(r@ =~= words_at(bytes@, at as int, 3));
    r
}

fn eof_error() -> (e: PostHacError)
    ensures
        is_eof(e),
{
    PostHacError::Io(lit("failed to fill whole buffer"))
}

/// Reads a header starting at byte `*pos`; on success `*pos` moves past it,
/// on failure it stays where it was.
pub fn read_header(bytes: &[u8], pos: &mut usize) -> (r: Result<PostHacHeader, PostHacError>)
    ensures
        match header_read(bytes@, *old(pos) as int) {
            HeaderRead::TruncatedMagic => r matches Err(PostHacError::Truncated(m)) && m@
                == "magic"@,
            HeaderRead::BadMagic => r matches Err(PostHacError::BadMagic),
            HeaderRead::TruncatedVersion => r matches Err(PostHacError::Truncated(m)) && m@
                == "version"@,
            HeaderRead::BadVersion(v) => r matches Err(PostHacError::UnsupportedVersion(x)) && x
                == v,
            HeaderRead::Eof => r matches Err(e) && is_eof(e),
            HeaderRead::Complete => r matches Ok(h) && header_at(bytes@, *old(pos) as int, h)
                && *final(pos) == *old(pos) + header_len(h.d as int),
        },
        r is Err ==> *final(pos) == *old(pos),
{
    let at = *pos;
    let len = bytes.len();
    if len < 4 || at > len - 4 {
        return Err(PostHacError::Truncated("magic"));
    }
    let magic = read_u32_le(bytes, at);
    if magic != POSTHAC_MAGIC {
        return Err(PostHacError::BadMagic);
    }
    if len < 8 || at > len - 8 {
        return Err(PostHacError::Truncated("version"));
    }
    let version = read_u32_le(bytes, at + 4);
    if version != POSTHAC_VERSION {
        return Err(PostHacError::UnsupportedVersion(version));
    }
    if len < 16 || at > len - 16 {
        return Err(eof_error());
    }
    let n = read_u32_le(bytes, at + 8);
    let d = read_u32_le(bytes, at + 12);
    let need: u64 = 68u64 + 8u64 * (d as u64);
    if ((len - at) as u64) < need {
        return Err(eof_error());
    }
    let du = d as usize;
    let sh_degree = bytes[at + 16];
    let attr_mn = read_words(bytes, at + 20, du);
    let attr_mx = read_words(bytes, at + 20 + 4 * du, du);
    let pos_mn = read_triple(bytes, at + 20 + 8 * du);
    let pos_mx = read_triple(bytes, at + 32 + 8 * du);
    let cb = at + 44 + 8 * du;
    let config = HyperpriorConfig {
        grid_levels: read_u32_le(bytes, cb),
        features_per_level: read_u32_le(bytes, cb + 4),
        log2_hashmap_size: read_u32_le(bytes, cb + 8),
        base_resolution: read_u32_le(bytes, cb + 12),
        mlp_hidden: read_u32_le(bytes, cb + 16),
        n_attrs: read_u32_le(bytes, cb + 20),
    };
    *pos = at + 68 + 8 * du;
    Ok(PostHacHeader { n, d, sh_degree, attr_mn, attr_mx, pos_mn, pos_mx, config })
}


// ---------- reading back what was written ----------

proof fn lemma_u32_in(x: Seq<u8>, w: u32, z: Seq<u8>)
    ensures
        le_u32(x + u32_le(w) + z, x.len() as int) == w,
{
    lemma_u32_le_roundtrip(w, x, z);
}

proof fn lemma_words_in(x: Seq<u8>, v: Seq<u32>, z: Seq<u8>)
    ensures
        words_at(x + words_le(v) + z, x.len() as int, v.len() as int) == v,
        words_le(v).len() == 4 * v.len(),
{
    lemma_words_roundtrip(v, x, z);
}

proof fn lemma_config_in(x: Seq<u8>, c: HyperpriorConfig, z: Seq<u8>)
    ensures
        config_at(x + words_le(config_words(c)) + z, x.len() as int) == c,
        words_le(config_words(c)).len() == 24,
{
    let v = config_words(c);
    lemma_words_in(x, v, z);
    let b = x + words_le(v) + z;
    let w = words_at(b, x.len() as int, 6);
    assert(w[0] == v[0] && w[1] == v[1] && w[2] == v[2]);
    assert(w[3] == v[3] && w[4] == v[4] && w[5] == v[5]);
}

proof fn lemma_regroup4(p: Seq<u8>, q1: Seq<u8>, q2: Seq<u8>, q3: Seq<u8>, q4: Seq<u8>, z: Seq<u8>)
    ensures
        p + (q1 + q2 + q3 + q4) + z == p + q1 + (q2 + q3 + q4 + z),
        p + (q1 + q2 + q3 + q4) + z == (p + q1) + q2 + (q3 + q4 + z),
        p + (q1 + q2 + q3 + q4) + z == (p + q1 + q2) + q3 + (q4 + z),
        p + (q1 + q2 + q3 + q4) + z == (p + q1 + q2 + q3) + q4 + z,
{
    let b = p + (q1 + q2 + q3 + q4) + z;
    assert(b =~= p + q1 + (q2 + q3 + q4 + z));
    assert(b =~= (p + q1) + q2 + (q3 + q4 + z));
    assert(b =~= (p + q1 + q2) + q3 + (q4 + z));
    assert(b =~= (p + q1 + q2 + q3) + q4 + z);
}

proof fn lemma_regroup5(
    p: Seq<u8>,
    q1: Seq<u8>,
    q2: Seq<u8>,
    q3: Seq<u8>,
    q4: Seq<u8>,
    q5: Seq<u8>,
    z: Seq<u8>,
)
    ensures
        p + (q1 + q2 + q3 + q4 + q5) + z == p + q1 + (q2 + q3 + q4 + q5 + z),
        p + (q1 + q2 + q3 + q4 + q5) + z == (p + q1) + q2 + (q3 + q4 + q5 + z),
        p + (q1 + q2 + q3 + q4 + q5) + z == (p + q1 + q2) + q3 + (q4 + q5 + z),
        p + (q1 + q2 + q3 + q4 + q5) + z == (p + q1 + q2 + q3) + q4 + (q5 + z),
        p + (q1 + q2 + q3 + q4 + q5) + z == (p + q1 + q2 + q3 + q4) + q5 + z,
{
    let b = p + (q1 + q2 + q3 + q4 + q5) + z;
    assert(b =~= p + q1 + (q2 + q3 + q4 + q5 + z));
    assert(b =~= (p + q1) + q2 + (q3 + q4 + q5 + z));
    assert(b =~= (p + q1 + q2) + q3 + (q4 + q5 + z));
    assert(b =~= (p + q1 + q2 + q3) + q4 + (q5 + z));
    assert(b =~= (p + q1 + q2 + q3 + q4) + q5 + z);
}

proof fn lemma_head_in(x: Seq<u8>, h: PostHacHeader, z: Seq<u8>)
    ensures
        header_head(h).len() == 20,
        le_u32(x + header_head(h) + z, x.len() as int) == POSTHAC_MAGIC,
        le_u32(x + header_head(h) + z, x.len() as int + 4) == POSTHAC_VERSION,
        le_u32(x + header_head(h) + z, x.len() as int + 8) == h.n,
        le_u32(x + header_head(h) + z, x.len() as int + 12) == h.d,
        (x + header_head(h) + z)[x.len() as int + 16] == h.sh_degree,
{
    let p0 = u32_le(POSTHAC_MAGIC);
    let p1 = u32_le(POSTHAC_VERSION);
    let p2 = u32_le(h.n);
    let p3 = u32_le(h.d);
    let p4 = seq![h.sh_degree, 0u8, 0u8, 0u8];
    let b = x + header_head(h) + z;
    assert(b =~= x + p0 + (p1 + p2 + p3 + p4 + z));
    lemma_u32_in(x, POSTHAC_MAGIC, p1 + p2 + p3 + p4 + z);
    assert(b =~= (x + p0) + p1 + (p2 + p3 + p4 + z));
    lemma_u32_in(x + p0, POSTHAC_VERSION, p2 + p3 + p4 + z);
    assert(b =~= (x + p0 + p1) + p2 + (p3 + p4 + z));
    lemma_u32_in(x + p0 + p1, h.n, p3 + p4 + z);
    assert(b =~= (x + p0 + p1 + p2) + p3 + (p4 + z));
    lemma_u32_in(x + p0 + p1 + p2, h.d, p4 + z);
}

proof fn lemma_tail_in(x: Seq<u8>, h: PostHacHeader, z: Seq<u8>)
    ensures
        header_tail(h).len() == 4 * h.pos_mn@.len() + 4 * h.pos_mx@.len() + 24,
        words_at(x + header_tail(h) + z, x.len() as int, 3) == h.pos_mn@,
        words_at(x + header_tail(h) + z, x.len() as int + 12, 3) == h.pos_mx@,
        config_at(x + header_tail(h) + z, x.len() as int + 24) == h.config,
{
    let q0 = words_le(h.pos_mn@);
    let q1 = words_le(h.pos_mx@);
    let q2 = words_le(config_words(h.config));
    let b = x + header_tail(h) + z;
    lemma_words_le_len(h.pos_mn@);
    lemma_words_le_len(h.pos_mx@);
    assert(b =~= x + q0 + (q1 + q2 + z));
    lemma_words_in(x, h.pos_mn@, q1 + q2 + z);
    assert(b =~= (x + q0) + q1 + (q2 + z));
    lemma_words_in(x + q0, h.pos_mx@, q2 + z);
    assert(b =~= (x + q0 + q1) + q2 + z);
    lemma_config_in(x + q0 + q1, h.config, z);
}

/// What `write_header` writes, `read_header` reads back: the same header,
/// ending right after the bytes written.
pub proof fn lemma_header_roundtrip(h: PostHacHeader, pre: Seq<u8>, post: Seq<u8>)
    requires
        header_well_formed(h),
    ensures
        header_bytes(h).len() == header_len(h.d as int),
        header_read(pre + header_bytes(h) + post, pre.len() as int) == HeaderRead::Complete,
        header_at(pre + header_bytes(h) + post, pre.len() as int, h),
{
    reveal(header_bytes);
    let d = h.d as int;
    let hd = header_head(h);
    let a = words_le(h.attr_mn@);
    let m = words_le(h.attr_mx@);
    let tl = header_tail(h);
    lemma_words_le_len(h.attr_mn@);
    lemma_words_le_len(h.attr_mx@);
    lemma_regroup4(pre, hd, a, m, tl, post);
    lemma_head_in(pre, h, a + m + tl + post);
    lemma_words_in(pre + hd, h.attr_mn@, m + tl + post);
    lemma_words_in(pre + hd + a, h.attr_mx@, tl + post);
    lemma_tail_in(pre + hd + a + m, h, post);
    assert(h.pos_mn@.len() == 3 && h.pos_mx@.len() == 3);
}

/// Writes the hyperprior weights, array after array.
pub fn write_weights(out: &mut Vec<u8>, cfg: &HyperpriorConfig, wts: &HyperpriorWeights)
    requires
        weights_shape(*cfg, *wts),
    ensures
        final(out)@ == old(out)@ + weights_bytes(*wts),
{
    push_words(out, wts.grid_tables.as_slice());
    push_words(out, wts.fc1_w.as_slice());
    push_words(out, wts.fc1_b.as_slice());
    push_words(out, wts.fc2_w.as_slice());
    push_words(out, wts.fc2_b.as_slice());
    reveal(weights_bytes);
    assert(final(out)@ =~= old(out)@ + weights_bytes(*wts));
}

/// Sizes of the five weight arrays of `cfg`.
fn weight_sizes(cfg: &HyperpriorConfig) -> (r: (usize, usize, usize, usize, usize))
    requires
        weights_fit(*cfg),
    ensures
        r.0 == table_len(*cfg),
        r.1 == cfg.mlp_hidden * n_feats(*cfg),
        r.2 == cfg.mlp_hidden,
        r.3 == out_size(*cfg) * cfg.mlp_hidden,
        r.4 == out_size(*cfg),
{
    let lv = cfg.grid_levels as usize;
    let fpl = cfg.features_per_level as usize;
    let sh = cfg.log2_hashmap_size as usize;
    proof {
        let p = vstd::arithmetic::power2::pow2(sh as nat);
        vstd::bits::lemma_usize_pow2_no_overflow(sh as nat);
        vstd::bits::lemma_usize_shl_is_mul(1, sh);
        vstd::arithmetic::mul::lemma_mul_is_associative(lv as int, p as int, fpl as int);
    }
    let entries: usize = 1usize << sh;
    let table = lv * entries * fpl;
    let nf = lv * fpl;
    let h = cfg.mlp_hidden as usize;
    let out = 2 * (cfg.n_attrs as usize);
    (table, h * nf, h, out * h, out)
}

/// Reads the hyperprior weights of `cfg` starting at byte `*pos`; on
/// success `*pos` moves past them, on failure it stays where it was.
pub fn read_weights(bytes: &[u8], pos: &mut usize, cfg: &HyperpriorConfig) -> (r: Result<
    HyperpriorWeights,
    PostHacError,
>)
    requires
        weights_fit(*cfg),
    ensures
        match r {
            Ok(w) => *old(pos) + 4 * weights_words(*cfg) <= bytes@.len() && weights_at(
                bytes@,
                *old(pos) as int,
                *cfg,
                w,
            ) && *final(pos) == *old(pos) + 4 * weights_words(*cfg),
            Err(e) => bytes@.len() < *old(pos) + 4 * weights_words(*cfg) && is_eof(e) && *final(pos)
                == *old(pos),
        },
{
    let (t, f1, h, f2, o) = weight_sizes(cfg);
    let at = *pos;
    let len = bytes.len();
    let need: u128 = 4u128 * ((t as u128) + (f1 as u128) + (h as u128) + (f2 as u128) + (o as u128));
    if at > len || ((len - at) as u128) < need {
        return Err(eof_error());
    }
    let grid_tables = read_words(bytes, at, t);
    let fc1_w = read_words(bytes, at + 4 * t, f1);
    let fc1_b = read_words(bytes, at + 4 * (t + f1), h);
    let fc2_w = read_words(bytes, at + 4 * (t + f1 + h), f2);
    let fc2_b = read_words(bytes, at + 4 * (t + f1 + h + f2), o);
    *pos = at + 4 * (t + f1 + h + f2 + o);
    Ok(HyperpriorWeights { grid_tables, fc1_w, fc1_b, fc2_w, fc2_b })
}

/// What `write_weights` writes, `read_weights` reads back.
pub proof fn lemma_weights_roundtrip(
    c: HyperpriorConfig,
    w: HyperpriorWeights,
    pre: Seq<u8>,
    post: Seq<u8>,
)
    requires
        weights_shape(c, w),
    ensures
        weights_bytes(w).len() == 4 * weights_words(c),
        weights_at(pre + weights_bytes(w) + post, pre.len() as int, c, w),
{
    reveal(weights_bytes);
    lemma_five_words(pre, w.grid_tables@, w.fc1_w@, w.fc1_b@, w.fc2_w@, w.fc2_b@, post);
}

proof fn lemma_five_words(
    pre: Seq<u8>,
    v0: Seq<u32>,
    v1: Seq<u32>,
    v2: Seq<u32>,
    v3: Seq<u32>,
    v4: Seq<u32>,
    post: Seq<u8>,
)
    ensures
        ({
            let b = pre + (words_le(v0) + words_le(v1) + words_le(v2) + words_le(v3) + words_le(v4))
                + post;
            let a = pre.len() as int;
            &&& (words_le(v0) + words_le(v1) + words_le(v2) + words_le(v3) + words_le(v4)).len()
                == 4 * (v0.len() + v1.len() + v2.len() + v3.len() + v4.len())
            &&& words_at(b, a, v0.len() as int) == v0
            &&& words_at(b, a + 4 * v0.len(), v1.len() as int) == v1
            &&& words_at(b, a + 4 * (v0.len() + v1.len()), v2.len() as int) == v2
            &&& words_at(b, a + 4 * (v0.len() + v1.len() + v2.len()), v3.len() as int) == v3
            &&& words_at(b, a + 4 * (v0.len() + v1.len() + v2.len() + v3.len()), v4.len() as int)
                == v4
        }),
{
    let q0 = words_le(v0);
    let q1 = words_le(v1);
    let q2 = words_le(v2);
    let q3 = words_le(v3);
    let q4 = words_le(v4);
    lemma_regroup5(pre, q0, q1, q2, q3, q4, post);
    lemma_words_in(pre, v0, q1 + q2 + q3 + q4 + post);
    lemma_words_in(pre + q0, v1, q2 + q3 + q4 + post);
    lemma_words_in(pre + q0 + q1, v2, q3 + q4 + post);
    lemma_words_in(pre + q0 + q1 + q2, v3, q4 + post);
    lemma_words_in(pre + q0 + q1 + q2 + q3, v4, post);
}

// ---------- whole container ----------

/// The bytes `write_container` emits; the word count of `compressed` is
/// stored modulo 2^32.
pub open spec fn container_bytes(
    h: PostHacHeader,
    w: HyperpriorWeights,
    positions: Seq<u32>,
    compressed: Seq<u32>,
) -> Seq<u8> {
    header_bytes(h) + weights_bytes(w) + words_le(positions) + u32_le(
        (compressed.len() % 0x1_0000_0000) as u32,
    ) + words_le(compressed)
}

/// Byte offset where the weights of the container in `b` start.
pub open spec fn weights_start(b: Seq<u8>) -> int {
    header_len(le_u32(b, 12) as int)
}

/// The configuration of the container header in `b`.
pub open spec fn container_config(b: Seq<u8>) -> HyperpriorConfig {
    config_at(b, 44 + 8 * (le_u32(b, 12) as int))
}

/// Byte offset where the positions of the container in `b` start.
pub open spec fn positions_start(b: Seq<u8>) -> int {
    weights_start(b) + 4 * weights_words(container_config(b))
}

/// Byte offset of the compressed word count of the container in `b`.
pub open spec fn count_start(b: Seq<u8>) -> int {
    positions_start(b) + 12 * (le_u32(b, 8) as int)
}

/// The whole container in `b` is present (past a complete header).
pub open spec fn container_complete(b: Seq<u8>) -> bool {
    &&& count_start(b) + 4 <= b.len()
    &&& count_start(b) + 4 + 4 * (le_u32(b, count_start(b)) as int) <= b.len()
}

/// `k` is the container stored in `b`.
pub open spec fn container_at(b: Seq<u8>, k: Container) -> bool {
    &&& header_at(b, 0, k.header)
    &&& weights_at(b, weights_start(b), k.header.config, k.weights)
    &&& k.positions@ == words_at(b, positions_start(b), 3 * (le_u32(b, 8) as int))
    &&& k.compressed@ == words_at(b, count_start(b) + 4, le_u32(b, count_start(b)) as int)
}

/// Writes a whole `.pthc` container: header, weights, positions, and the
/// compressed words after their count.
pub fn write_container(
    out: &mut Vec<u8>,
    header: &PostHacHeader,
    weights: &HyperpriorWeights,
    positions: &[u32],
    compressed: &[u32],
)
    requires
        weights_shape(header.config, *weights),
    ensures
        final(out)@ == old(out)@ + container_bytes(*header, *weights, positions@, compressed@),
{
    write_header(out, header);
    write_weights(out, &header.config, weights);
    push_words(out, positions);
    let k = compressed.len() as u64;
    push_u32_le(out, (k % 0x1_0000_0000u64) as u32);
    push_words(out, compressed);
    assert(final(out)@ =~= old(out)@ + container_bytes(*header, *weights, positions@, compressed@));
}

/// Parses a whole `.pthc` container.
pub fn read_container(bytes: &[u8]) -> (r: Result<Container, PostHacError>)
    requires
        header_read(bytes@, 0) == HeaderRead::Complete ==> weights_fit(container_config(bytes@)),
    ensures
        match header_read(bytes@, 0) {
            HeaderRead::TruncatedMagic => r matches Err(PostHacError::Truncated(m)) && m@
                == "magic"@,
            HeaderRead::BadMagic => r matches Err(PostHacError::BadMagic),
            HeaderRead::TruncatedVersion => r matches Err(PostHacError::Truncated(m)) && m@
                == "version"@,
            HeaderRead::BadVersion(v) => r matches Err(PostHacError::UnsupportedVersion(x)) && x
                == v,
            HeaderRead::Eof => r matches Err(e) && is_eof(e),
            HeaderRead::Complete => if container_complete(bytes@) {
                r matches Ok(k) && container_at(bytes@, k)
            } else {
                r matches Err(e) && is_eof(e)
            },
        },
{
    let mut pos: usize = 0;
    let header = match read_header(bytes, &mut pos) {
        Ok(h) => h,
        Err(e) => {
            return Err(e);
        },
    };
    let weights = match read_weights(bytes, &mut pos, &header.config) {
        Ok(w) => w,
        Err(e) => {
            return Err(e);
        },
    };
    let len = bytes.len();
    let np: u64 = 3u64 * (header.n as u64);
    if ((len - pos) as u64) / 4 < np {
        return Err(eof_error());
    }
    let npu = np as usize;
    let positions = read_words(bytes, pos, npu);
    let cpos = pos + 4 * npu;
    if len - cpos < 4 {
        return Err(eof_error());
    }
    let count = read_u32_le(bytes, cpos);
    if ((len - cpos - 4) as u64) / 4 < (count as u64) {
        return Err(eof_error());
    }
    let compressed = read_words(bytes, cpos + 4, count as usize);
    Ok(Container { header, weights, positions, compressed })
}

/// What `write_container` writes, `read_container` reads back, as long as
/// the compressed word count fits its 32-bit field.
#[verifier::spinoff_prover]
#[verifier::rlimit(60)]
pub proof fn lemma_container_roundtrip(
    h: PostHacHeader,
    w: HyperpriorWeights,
    positions: Seq<u32>,
    compressed: Seq<u32>,
    post: Seq<u8>,
)
    requires
        header_well_formed(h),
        weights_shape(h.config, w),
        positions.len() == 3 * h.n,
        compressed.len() < 0x1_0000_0000,
    ensures
        ({
            let b = container_bytes(h, w, positions, compressed) + post;
            &&& header_read(b, 0) == HeaderRead::Complete
            &&& container_config(b) == h.config
            &&& container_complete(b)
            &&& header_at(b, 0, h)
            &&& weights_at(b, weights_start(b), h.config, w)
            &&& words_at(b, positions_start(b), 3 * (le_u32(b, 8) as int)) == positions
            &&& words_at(b, count_start(b) + 4, le_u32(b, count_start(b)) as int) == compressed
        }),
{
    let hb = header_bytes(h);
    let wb = weights_bytes(w);
    let pb = words_le(positions);
    let cb = u32_le(compressed.len() as u32);
    let kb = words_le(compressed);
    let e = Seq::<u8>::empty();
    let b = container_bytes(h, w, positions, compressed) + post;
    assert(compressed.len() % 0x1_0000_0000 == compressed.len());
    lemma_regroup5(e, hb, wb, pb, cb, kb, post);
    assert(e + (hb + wb + pb + cb + kb) + post == b) by {
        assert(e + (hb + wb + pb + cb + kb) =~= hb + wb + pb + cb + kb);
    }
    assert(e + hb == hb);
    lemma_header_roundtrip(h, e, wb + pb + cb + kb + post);
    lemma_weights_roundtrip(h.config, w, hb, pb + cb + kb + post);
    lemma_words_in(hb + wb, positions, cb + kb + post);
    lemma_u32_in(hb + wb + pb, compressed.len() as u32, kb + post);
    lemma_words_in(hb + wb + pb + cb, compressed, post);
    lemma_words_le_len(positions);
    lemma_words_le_len(compressed);
    assert(le_u32(b, 8) == h.n);
    assert(le_u32(b, 12) == h.d);
    assert(weights_start(b) == hb.len());
    assert(container_config(b) == h.config);
    assert(positions_start(b) == hb.len() + wb.len());
    assert(count_start(b) == hb.len() + wb.len() + pb.len());
}

// ---------- range-coder input shape ----------

/// Checks that `codes_len` codes form an `n × d` table and that there is one
/// prediction per splat, before any symbol is coded. Reports the first
/// mismatch; shapes are reported as `u32` (truncated).
pub fn check_code_shape(codes_len: usize, n: usize, d: usize, n_predictions: usize) -> (r: Result<
    (),
    PostHacError,
>)
    requires
        n * d <= usize::MAX,
        d == 0 ==> codes_len == 0,
    ensures
        codes_len != n * d ==> (r matches Err(PostHacError::ShapeMismatch { expected, got })
            && expected == (n as u32, d as u32) && got == ((codes_len / d) as u32, d as u32)),
        codes_len == n * d && n_predictions != n ==> (r matches Err(
            PostHacError::ShapeMismatch { expected, got },
        ) && expected == (n as u32, d as u32) && got == (n_predictions as u32, d as u32)),
        codes_len == n * d && n_predictions == n ==> r is Ok,
{
    if codes_len != n * d {
        return Err(
            PostHacError::ShapeMismatch {
                expected: (n as u32, d as u32),
                got: ((codes_len / d) as u32, d as u32),
            },
        );
    }
    if n_predictions != n {
        return Err(
            PostHacError::ShapeMismatch {
                expected: (n as u32, d as u32),
                got: (n_predictions as u32, d as u32),
            },
        );
    }
    Ok(())
}

/// Whether every weight-array size of `c` is computable without overflow,
/// the condition for reading its weights.
pub fn weights_fit_check(c: &HyperpriorConfig) -> (r: bool)
    ensures
        r == weights_fit(*c),
{
    if c.log2_hashmap_size >= usize::BITS {
        return false;
    }
    let sh = c.log2_hashmap_size as usize;
    proof {
        vstd::bits::lemma_usize_pow2_no_overflow(sh as nat);
        vstd::bits::lemma_usize_shl_is_mul(1, sh);
    }
    let p: usize = 1usize << sh;
    let max = usize::MAX as u128;
    let lv = c.grid_levels as u128;
    let fpl = c.features_per_level as u128;
    let h = c.mlp_hidden as u128;
    assert(lv * (p as u128) <= 0xFFFF_FFFF * 0xFFFF_FFFF_FFFF_FFFFu128) by (nonlinear_arith)
        requires
            lv <= 0xFFFF_FFFF,
            p <= 0xFFFF_FFFF_FFFF_FFFF,
    ;
    let a = lv * (p as u128);
    if a > max {
        return false;
    }
    assert(a * fpl <= 0xFFFF_FFFF_FFFF_FFFF * 0xFFFF_FFFFu128) by (nonlinear_arith)
        requires
            a <= 0xFFFF_FFFF_FFFF_FFFF,
            fpl <= 0xFFFF_FFFF,
    ;
    let t = a * fpl;
    assert(lv * fpl <= 0xFFFF_FFFF * 0xFFFF_FFFFu128) by (nonlinear_arith)
        requires
            lv <= 0xFFFF_FFFF,
            fpl <= 0xFFFF_FFFF,
    ;
    let nf = lv * fpl;
    let out = 2 * (c.n_attrs as u128);
    assert(h * nf <= 0xFFFF_FFFF * (0xFFFF_FFFF * 0xFFFF_FFFFu128)) by (nonlinear_arith)
        requires
            h <= 0xFFFF_FFFF,
            nf <= 0xFFFF_FFFF * 0xFFFF_FFFFu128,
    ;
    assert(out * h <= 0x1_FFFF_FFFE * 0xFFFF_FFFFu128) by (nonlinear_arith)
        requires
            h <= 0xFFFF_FFFF,
            out <= 0x1_FFFF_FFFE,
    ;
    let hn = h * nf;
    let oh = out * h;
    proof {
        assert(t == table_len(*c));
        assert(nf == n_feats(*c));
        assert(out == out_size(*c));
    }
    t <= max && nf <= max && out <= max && hn <= max && oh <= max
}

} // verus!
