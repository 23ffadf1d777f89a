//! MesonGS++ container: Morton ordering, row permutations, the bit-packed
//! position stream, the index-stream framing around the range coder, and
//! the CRC-protected container table.
use vstd::prelude::*;
use vstd::string::*;
use crate::ply::PlyError;
use crate::bytes::{words_le, words_at, push_words, read_words, lemma_words_roundtrip, le_u32, le_u64, u32_le, u64_le, read_u32_le, read_u64_le, push_u32_le, push_u64_le, push_all, lemma_u32_le_roundtrip, lemma_u64_le_roundtrip};
use crate::text::{lit, append_str, push_decimal, decimal};

verus! {

/// Magic header for `.meson` containers (`MGSPP\0\0\0`).
pub open spec fn meson_magic() -> Seq<u8> {
    seq![0x4Du8, 0x47u8, 0x53u8, 0x50u8, 0x50u8, 0u8, 0u8, 0u8]
}

/// Current container version.
pub const VERSION: u32 = 1;

/// Number of streams in the container (xyz, scale, rot, opacity, f_dc,
/// f_rest, perm, codebook_blob).
pub const N_STREAMS: usize = 8;

/// Logical stream index for each feature group.
#[derive(Debug, Clone, Copy, PartialEq, Eq, Structural)]
pub enum StreamId {
    Xyz,
    Scale,
    Rot,
    Opacity,
    FDc,
    FRest,
    /// Per-row permutation (`u32` LE, length `n_anchors`).
    Perm,
    /// Codebook + per-channel stats blob.
    CodebookBlob,
}

impl StreamId {
    /// Position of the stream in the container's stream table.
    pub fn index(self) -> (r: usize)
        ensures
            r == match self {
                StreamId::Xyz => 0usize,
                StreamId::Scale => 1,
                StreamId::Rot => 2,
                StreamId::Opacity => 3,
                StreamId::FDc => 4,
                StreamId::FRest => 5,
                StreamId::Perm => 6,
                StreamId::CodebookBlob => 7,
            },
            r < N_STREAMS,
    {
        match self {
            StreamId::Xyz => 0,
            StreamId::Scale => 1,
            StreamId::Rot => 2,
            StreamId::Opacity => 3,
            StreamId::FDc => 4,
            StreamId::FRest => 5,
            StreamId::Perm => 6,
            StreamId::CodebookBlob => 7,
        }
    }
}

/// All errors produced by the codec.
#[derive(Debug)]
pub enum MesonError {
    /// A read ran past the end of the data.
    Io(String),
    /// Bad magic header (not a .meson file).
    BadMagic,
    /// File version, codec version.
    UnsupportedVersion(u32, u32),
    /// The container is corrupt or truncated.
    Crc32Mismatch,
    /// Malformed metadata.
    MalformedMeta(String),
    /// Range coder failure.
    RangeCoder(String),
    /// Input scene has zero splats.
    EmptyScene,
    /// Invalid SH degree (expected 0..=3).
    InvalidShDegree(u8),
    /// PLY ingest failed.
    Ply(PlyError),
}

/// Encode-time configuration knobs.
#[derive(Debug, Clone, Copy, PartialEq, Eq, Structural)]
pub struct EncodeConfig {
    /// K-means codebook size for low-importance groups (scale, rot, opacity).
    pub kmeans_k_low: u16,
    /// K-means codebook size for color groups (f_dc, f_rest).
    pub kmeans_k_color: u16,
    /// Position-quantization bits per axis.
    pub xyz_bits: u8,
    /// Lloyd's iterations.
    pub kmeans_iters: u32,
    /// Random seed for deterministic K-means init.
    pub seed: u64,
    /// Store the Morton permutation so decoded splats come out in input order.
    pub preserve_order: bool,
}

impl Default for EncodeConfig {
    /// 256-entry codebooks, 14-bit positions, 10 Lloyd iterations, seed
    /// `0xC0FFEE`, Morton order kept.
    fn default() -> (c: Self)
        ensures
            c == (EncodeConfig {
                kmeans_k_low: 256,
                kmeans_k_color: 256,
                xyz_bits: 14,
                kmeans_iters: 10,
                seed: 0xC0FFEE,
                preserve_order: false,
            }),
    {
        EncodeConfig {
            kmeans_k_low: 256,
            kmeans_k_color: 256,
            xyz_bits: 14,
            kmeans_iters: 10,
            seed: 0xC0FFEE,
            preserve_order: false,
        }
    }
}

/// Per-codebook descriptor pointing into the container's codebook blob.
#[derive(Debug, Clone, Copy, PartialEq, Eq, Structural)]
pub struct CodebookDesc {
    /// Number of centroids (`k`).
    pub k: u32,
    /// Centroid dimension (`d`).
    pub d: u32,
    /// Byte offset of centroids in the codebook blob (`k*d` f32 LE).
    pub centroids_off: u64,
    /// Byte offset of the stats table (`d * (2 + 257)` f32 LE).
    pub stats_off: u64,
}

/// Per-stream sizes of a container, read without decoding payloads.
#[derive(Debug, Clone)]
pub struct ContainerLayout {
    pub n_anchors: u32,
    pub meta_bytes: u64,
    pub stream_sizes: Vec<u64>,
}

// ---------- Morton order ----------

/// Bit `i` of `v`.
pub open spec fn bit(v: u64, i: int) -> u64 {
    (v >> (i as u64)) & 1
}

/// Bit `3i + k` of `v`: lane `k` (0, 1 or 2) of Morton digit `i`.
pub open spec fn lane(v: u64, i: int, k: int) -> u64 {
    bit(v, 3 * i + k)
}

proof fn lemma_split_bits(x: u32, v: u64, i: u64)
    by (bit_vector)
    requires
        v == ({
            let v0 = (x & 0xFFFF) as u64;
            let v1 = (v0 | v0 << 32u64) & 0x001F_0000_0000_FFFFu64;
            let v2 = (v1 | v1 << 16u64) & 0x001F_0000_FF00_00FFu64;
            let v3 = (v2 | v2 << 8u64) & 0x100F_00F0_0F00_F00Fu64;
            let v4 = (v3 | v3 << 4u64) & 0x10C3_0C30_C30C_30C3u64;
            (v4 | v4 << 2u64) & 0x1249_2492_4924_9249u64
        }),
        i < 16,
    ensures
        bit(v, 3 * i) == bit(x as u64, i as int),
        bit(v, 3 * i + 1) == 0,
        bit(v, 3 * i + 2) == 0,
        v >> 48u64 == 0,
{
}

/// Spreads the low 16 bits of `x` three positions apart: bit `i` of `x`
/// lands on bit `3i`, every other bit is zero.
pub fn split_by_3(x: u32) -> (r: u64)
    ensures
        forall|i: int|
            0 <= i < 16 ==> #[trigger] lane(r, i, 0) == bit(x as u64, i) && lane(r, i, 1) == 0 && lane(
                r,
                i,
                2,
            ) == 0,
        r >> 48u64 == 0,
{
    let mut v = (x & 0xFFFF) as u64;
    v = (v | v << 32u64) & 0x001F_0000_0000_FFFFu64;
    v = (v | v << 16u64) & 0x001F_0000_FF00_00FFu64;
    v = (v | v << 8u64) & 0x100F_00F0_0F00_F00Fu64;
    v = (v | v << 4u64) & 0x10C3_0C30_C30C_30C3u64;
    v = (v | v << 2u64) & 0x1249_2492_4924_9249u64;
    proof {
        assert forall|i: int| 0 <= i < 16 implies #[trigger] lane(v, i, 0) == bit(x as u64, i) && lane(v, i, 1)
            == 0 && lane(v, i, 2) == 0 by {
            lemma_split_bits(x, v, i as u64);
        }
        lemma_split_bits(x, v, 0);
    }
    v
}

proof fn lemma_interleave_bits(a: u64, b: u64, c: u64, m: u64, i: u64)
    by (bit_vector)
    requires
        m == a | (b << 1u64) | (c << 2u64),
        i < 16,
        bit(a, 3 * i + 1) == 0,
        bit(a, 3 * i + 2) == 0,
        bit(b, 3 * i + 1) == 0,
        bit(b, 3 * i + 2) == 0,
        bit(c, 3 * i + 1) == 0,
        bit(c, 3 * i + 2) == 0,
        i > 0 ==> bit(b, 3 * i - 1) == 0,
        i > 0 ==> bit(c, 3 * i - 1) == 0,
        i > 0 ==> bit(c, 3 * i - 2) == 0,
    ensures
        bit(m, 3 * i) == bit(a, 3 * i),
        bit(m, 3 * i + 1) == bit(b, 3 * i),
        bit(m, 3 * i + 2) == bit(c, 3 * i),
{
}

proof fn lemma_interleave_high(a: u64, b: u64, c: u64, m: u64)
    by (bit_vector)
    requires
        m == a | (b << 1u64) | (c << 2u64),
        a >> 48u64 == 0,
        b >> 48u64 == 0,
        c >> 48u64 == 0,
        bit(b, 47) == 0,
        bit(c, 46) == 0,
        bit(c, 47) == 0,
    ensures
        m >> 48u64 == 0,
{
}

/// The 48-bit Morton code of three 16-bit coordinates: bit `i` of `x`,
/// `y` and `z` lands on bits `3i`, `3i + 1` and `3i + 2`, every higher bit
/// is zero.
#[verifier::spinoff_prover]
#[verifier::rlimit(40)]
pub fn morton3(x: u32, y: u32, z: u32) -> (r: u64)
    ensures
        is_morton_code(r, x, y, z),
        r >> 48u64 == 0,
{
    let a = split_by_3(x);
    let b = split_by_3(y);
    let c = split_by_3(z);
    let r = a | (b << 1u64) | (c << 2u64);
    proof {
        assert forall|i: int| 0 <= i < 16 implies #[trigger] lane(r, i, 0) == bit(x as u64, i) && lane(r, i, 1)
            == bit(y as u64, i) && lane(r, i, 2) == bit(z as u64, i) by {
            assert(lane(a, i, 0) == bit(x as u64, i));
            assert(lane(b, i, 0) == bit(y as u64, i));
            assert(lane(c, i, 0) == bit(z as u64, i));
            assert(lane(a, i, 1) == 0 && lane(a, i, 2) == 0);
            assert(lane(b, i, 1) == 0 && lane(b, i, 2) == 0);
            assert(lane(c, i, 1) == 0 && lane(c, i, 2) == 0);
            if i > 0 {
                assert(lane(b, i - 1, 0) == bit(y as u64, i - 1));
                assert(lane(c, i - 1, 0) == bit(z as u64, i - 1));
                assert(lane(b, i - 1, 2) == 0);
                assert(lane(c, i - 1, 2) == 0);
                assert(lane(c, i - 1, 1) == 0);
            }
            lemma_interleave_bits(a, b, c, r, i as u64);
        }
        assert(lane(b, 15, 0) == bit(y as u64, 15));
        assert(lane(c, 15, 0) == bit(z as u64, 15));
        assert(lane(b, 15, 2) == 0);
        assert(lane(c, 15, 1) == 0 && lane(c, 15, 2) == 0);
        lemma_interleave_high(a, b, c, r);
    }
    r
}

/// `r` is the Morton code of `x`, `y`, `z`: bits `3i`, `3i + 1`, `3i + 2`
/// are bit `i` of `x`, `y`, `z` for every `i < 16`.
pub open spec fn is_morton_code(r: u64, x: u32, y: u32, z: u32) -> bool {
    forall|i: int|
        0 <= i < 16 ==> #[trigger] lane(r, i, 0) == bit(x as u64, i) && lane(r, i, 1) == bit(y as u64, i)
            && lane(r, i, 2) == bit(z as u64, i)
}

proof fn lemma_low16_bits_eq(a: u64, b: u64)
    by (bit_vector)
    requires
        a < 0x10000,
        b < 0x10000,
        (a >> 0u64) & 1 == (b >> 0u64) & 1,
        (a >> 1u64) & 1 == (b >> 1u64) & 1,
        (a >> 2u64) & 1 == (b >> 2u64) & 1,
        (a >> 3u64) & 1 == (b >> 3u64) & 1,
        (a >> 4u64) & 1 == (b >> 4u64) & 1,
        (a >> 5u64) & 1 == (b >> 5u64) & 1,
        (a >> 6u64) & 1 == (b >> 6u64) & 1,
        (a >> 7u64) & 1 == (b >> 7u64) & 1,
        (a >> 8u64) & 1 == (b >> 8u64) & 1,
        (a >> 9u64) & 1 == (b >> 9u64) & 1,
        (a >> 10u64) & 1 == (b >> 10u64) & 1,
        (a >> 11u64) & 1 == (b >> 11u64) & 1,
        (a >> 12u64) & 1 == (b >> 12u64) & 1,
        (a >> 13u64) & 1 == (b >> 13u64) & 1,
        (a >> 14u64) & 1 == (b >> 14u64) & 1,
        (a >> 15u64) & 1 == (b >> 15u64) & 1,
    ensures
        a == b,
{
}

proof fn lemma_same_low16(a: u64, b: u64)
    requires
        a < 0x10000,
        b < 0x10000,
        forall|i: int| 0 <= i < 16 ==> #[trigger] bit(a, i) == bit(b, i),
    ensures
        a == b,
{
    assert(bit(a, 0) == bit(b, 0));
    assert(bit(a, 1) == bit(b, 1));
    assert(bit(a, 2) == bit(b, 2));
    assert(bit(a, 3) == bit(b, 3));
    assert(bit(a, 4) == bit(b, 4));
    assert(bit(a, 5) == bit(b, 5));
    assert(bit(a, 6) == bit(b, 6));
    assert(bit(a, 7) == bit(b, 7));
    assert(bit(a, 8) == bit(b, 8));
    assert(bit(a, 9) == bit(b, 9));
    assert(bit(a, 10) == bit(b, 10));
    assert(bit(a, 11) == bit(b, 11));
    assert(bit(a, 12) == bit(b, 12));
    assert(bit(a, 13) == bit(b, 13));
    assert(bit(a, 14) == bit(b, 14));
    assert(bit(a, 15) == bit(b, 15));
    lemma_low16_bits_eq(a, b);
}

/// The 48-bit Morton code is one-to-one on 16-bit coordinates: two codes
/// (as `morton3` returns them) are equal only for equal coordinates.
pub proof fn lemma_morton3_injective(x: u32, y: u32, z: u32, x2: u32, y2: u32, z2: u32, r: u64, r2: u64)
    requires
        x < 0x10000,
        y < 0x10000,
        z < 0x10000,
        x2 < 0x10000,
        y2 < 0x10000,
        z2 < 0x10000,
        is_morton_code(r, x, y, z),
        is_morton_code(r2, x2, y2, z2),
        r == r2,
    ensures
        x == x2 && y == y2 && z == z2,
{
    assert forall|i: int| 0 <= i < 16 implies #[trigger] bit(x as u64, i) == bit(x2 as u64, i) by {
        assert(lane(r, i, 0) == lane(r2, i, 0));
    }
    assert forall|i: int| 0 <= i < 16 implies #[trigger] bit(y as u64, i) == bit(y2 as u64, i) by {
        assert(lane(r, i, 0) == lane(r2, i, 0));
    }
    assert forall|i: int| 0 <= i < 16 implies #[trigger] bit(z as u64, i) == bit(z2 as u64, i) by {
        assert(lane(r, i, 0) == lane(r2, i, 0));
    }
    lemma_same_low16(x as u64, x2 as u64);
    lemma_same_low16(y as u64, y2 as u64);
    lemma_same_low16(z as u64, z2 as u64);
}

// ---------- permutations ----------

/// The last position `j < m` with `perm[j] == i`.
pub open spec fn last_index_of(perm: Seq<u32>, i: int, m: int) -> Option<int>
    decreases m,
{
    if m <= 0 {
        None
    } else if perm[m - 1] == i {
        Some(m - 1)
    } else {
        last_index_of(perm, i, m - 1)
    }
}

/// Every entry is a valid index.
pub open spec fn in_range(perm: Seq<u32>) -> bool {
    forall|j: int| 0 <= j < perm.len() ==> (#[trigger] perm[j] as int) < perm.len()
}

/// Index `i` occurs in `perm`.
pub open spec fn occurs(perm: Seq<u32>, i: int) -> bool {
    exists|j: int| 0 <= j < perm.len() && #[trigger] perm[j] == i
}

/// `perm` is a permutation of `0..perm.len()`.
pub open spec fn is_permutation(perm: Seq<u32>) -> bool {
    &&& in_range(perm)
    &&& forall|a: int, b: int| 0 <= a < b < perm.len() ==> #[trigger] perm[a] != #[trigger] perm[b]
    &&& forall|i: int| 0 <= i < perm.len() ==> #[trigger] occurs(perm, i)
}

/// Inverts a permutation: `inv[perm[j]] = j` (a later `j` wins when an
/// index repeats; an index that never occurs maps to 0).
pub fn invert_permutation(perm: &[u32]) -> (inv: Vec<u32>)
    requires
        in_range(perm@),
    ensures
        inv@.len() == perm@.len(),
        forall|i: int|
            0 <= i < perm@.len() ==> #[trigger] inv@[i] == match last_index_of(perm@, i, perm@.len() as int) {
                Some(j) => j as u32,
                None => 0u32,
            },
{
    let n = perm.len();
    let mut inv: Vec<u32> = Vec::new();
    let mut i: usize = 0;
    while i < n
        invariant
            i <= n == perm@.len(),
            inv@.len() == i,
            forall|t: int| 0 <= t < i ==> #[trigger] inv@[t] == 0u32,
        decreases n - i,
    {
        inv.push(0u32);
        i += 1;
    }
    let mut j: usize = 0;
    while j < n
        invariant
            j <= n == perm@.len(),
            in_range(perm@),
            inv@.len() == n,
            forall|t: int|
                0 <= t < n ==> #[trigger] inv@[t] == match last_index_of(perm@, t, j as int) {
                    Some(k) => k as u32,
                    None => 0u32,
                },
        decreases n - j,
    {
        let target = perm[j] as usize;
        inv.set(target, j as u32);
        proof {
            assert forall|t: int| 0 <= t < n implies #[trigger] inv@[t] == match last_index_of(
                perm@,
                t,
                j + 1,
            ) {
                Some(k) => k as u32,
                None => 0u32,
            } by {
                if t == target as int {
                    assert(last_index_of(perm@, t, j + 1) == Some(j as int));
                } else {
                    assert(last_index_of(perm@, t, j + 1) == last_index_of(perm@, t, j as int));
                }
            }
        }
        j += 1;
    }
    inv
}

proof fn lemma_last_index_unique(perm: Seq<u32>, i: int, j: int, m: int)
    requires
        0 <= j < m <= perm.len(),
        perm[j] == i,
        forall|a: int, b: int| 0 <= a < b < perm.len() ==> #[trigger] perm[a] != #[trigger] perm[b],
    ensures
        last_index_of(perm, i, m) == Some(j),
    decreases m,
{
    if m - 1 != j {
        assert(perm[m - 1] != perm[j]);
        lemma_last_index_unique(perm, i, j, m - 1);
    }
}

/// For a permutation, inverting undoes it from both sides:
/// `inv[perm[j]] == j` and `perm[inv[i]] == i`.
pub proof fn lemma_invert_permutation(perm: Seq<u32>, inv: Seq<u32>)
    requires
        is_permutation(perm),
        perm.len() <= 0x1_0000_0000,
        inv.len() == perm.len(),
        forall|i: int|
            0 <= i < perm.len() ==> #[trigger] inv[i] == match last_index_of(perm, i, perm.len() as int) {
                Some(j) => j as u32,
                None => 0u32,
            },
    ensures
        forall|j: int| 0 <= j < perm.len() ==> #[trigger] inv[perm[j] as int] == j,
        forall|i: int| 0 <= i < perm.len() ==> #[trigger] perm[inv[i] as int] == i,
        in_range(inv),
{
    assert forall|j: int| 0 <= j < perm.len() implies #[trigger] inv[perm[j] as int] == j by {
        lemma_last_index_unique(perm, perm[j] as int, j, perm.len() as int);
    }
    assert forall|i: int| 0 <= i < perm.len() implies #[trigger] perm[inv[i] as int] == i by {
        assert(occurs(perm, i));
        let j = choose|j: int| 0 <= j < perm.len() && #[trigger] perm[j] == i;
        lemma_last_index_unique(perm, i, j, perm.len() as int);
    }
    assert forall|i: int| 0 <= i < inv.len() implies (#[trigger] inv[i] as int) < inv.len() by {
        assert(occurs(perm, i));
        let j = choose|j: int| 0 <= j < perm.len() && #[trigger] perm[j] == i;
        lemma_last_index_unique(perm, i, j, perm.len() as int);
    }
}

// ---------- row permutations ----------

/// Where the flat element `k` of a permuted `[n, d]` matrix comes from:
/// row `perm[k / d]`, same column.
pub open spec fn row_source(perm: Seq<u32>, d: int, k: int) -> int {
    perm[k / d] * d + k % d
}

/// The rows of `data` reordered by `perm` (`perm[new] = old`).
pub open spec fn permuted<T>(data: Seq<T>, perm: Seq<u32>, d: int) -> Seq<T> {
    Seq::new((perm.len() * d) as nat, |k: int| data[row_source(perm, d, k)])
}

/// The last flat index `k < m` whose element goes back to position `t`.
pub open spec fn scatter_src(perm: Seq<u32>, d: int, t: int, m: int) -> Option<int>
    decreases m,
{
    if m <= 0 {
        None
    } else if row_source(perm, d, m - 1) == t {
        Some(m - 1)
    } else {
        scatter_src(perm, d, t, m - 1)
    }
}

/// The rows of `data` put back where `perm` took them from; positions no
/// row lands on keep `fill`.
pub open spec fn unpermuted<T>(data: Seq<T>, perm: Seq<u32>, d: int, fill: T) -> Seq<T> {
    Seq::new(
        data.len(),
        |t: int|
            match scatter_src(perm, d, t, perm.len() * d) {
                Some(k) => data[k],
                None => fill,
            },
    )
}

/// Every row `perm` names lies inside `len` elements of `d` columns.
pub open spec fn rows_fit(perm: Seq<u32>, d: int, len: int) -> bool {
    forall|j: int| 0 <= j < perm.len() ==> (#[trigger] perm[j] + 1) * d <= len
}

proof fn lemma_divmod(q: int, c: int, d: int)
    requires
        0 <= c < d,
        0 <= q,
    ensures
        (q * d + c) / d == q,
        (q * d + c) % d == c,
{
    vstd::arithmetic::div_mod::lemma_fundamental_div_mod_converse(q * d + c, d, q, c);
}

proof fn lemma_row_source_bound(perm: Seq<u32>, d: int, len: int, k: int)
    requires
        rows_fit(perm, d, len),
        d > 0,
        0 <= k < perm.len() * d,
    ensures
        0 <= row_source(perm, d, k) < len,
        0 <= k / d < perm.len(),
{
    vstd::arithmetic::div_mod::lemma_fundamental_div_mod(k, d);
    vstd::arithmetic::div_mod::lemma_div_pos_is_pos(k, d);
    vstd::arithmetic::div_mod::lemma_mod_bound(k, d);
    vstd::arithmetic::div_mod::lemma_div_by_multiple_is_strongly_ordered(k, perm.len() * d, perm.len() as int, d);
    assert(k / d < perm.len()) by (nonlinear_arith)
        requires
            k < perm.len() * d,
            d > 0,
            k == d * (k / d) + k % d,
            0 <= k % d,
    ;
    let j = k / d;
    assert((perm[j] + 1) * d <= len);
    assert(perm[j] * d + k % d < len) by (nonlinear_arith)
        requires
            (perm[j] + 1) * d <= len,
            k % d < d,
            perm[j] >= 0,
    ;
    assert(perm[j] * d + k % d >= 0) by (nonlinear_arith)
        requires
            perm[j] >= 0,
            d > 0,
            k % d >= 0,
    ;
}

/// Reorders the rows of the row-major `[n, d]` matrix `data` by `perm`
/// (`perm[new] = old`).
pub fn permute_rows<T: Copy>(data: &[T], perm: &[u32], d: usize) -> (r: Vec<T>)
    requires
        perm@.len() * d <= usize::MAX,
        rows_fit(perm@, d as int, data@.len() as int),
    ensures
        r@ == permuted(data@, perm@, d as int),
{
    let n = perm.len();
    let total = n * d;
    let mut out: Vec<T> = Vec::new();
    let mut k: usize = 0;
    assert(data@.len() == data.len());
    while k < total
        invariant
            total == perm@.len() * d,
            n == perm@.len(),
            data@.len() == data.len(),
            rows_fit(perm@, d as int, data@.len() as int),
            k <= total,
            out@.len() == k,
            forall|t: int| 0 <= t < k ==> #[trigger] out@[t] == data@[row_source(perm@, d as int, t)],
        decreases total - k,
    {
        proof {
            assert(d > 0) by (nonlinear_arith)
                requires
                    k < total,
                    total == perm@.len() * d,
            ;
            lemma_row_source_bound(perm@, d as int, data@.len() as int, k as int);
            assert(perm@[(k / d) as int] * d <= perm@[(k / d) as int] * d + k % d) by {
                vstd::arithmetic::div_mod::lemma_mod_bound(k as int, d as int);
            }
        }
        let row = k / d;
        let col = k % d;
        let src = (perm[row] as usize) * d + col;
        out.push(data[src]);
        k += 1;
    }
    proof {
        assert(out@ =~= permuted(data@, perm@, d as int));
    }
    out
}

/// Puts the rows of `data` (permuted by `perm`) back in their source
/// places: row `new` goes to row `perm[new]`. Positions no row lands on
/// hold `fill`.
pub fn unpermute_rows<T: Copy>(data: &[T], perm: &[u32], d: usize, fill: T) -> (r: Vec<T>)
    requires
        perm@.len() * d <= data@.len(),
        rows_fit(perm@, d as int, data@.len() as int),
    ensures
        r@ == unpermuted(data@, perm@, d as int, fill),
{
    let n = perm.len();
    assert(data@.len() == data.len());
    let total = n * d;
    let mut out: Vec<T> = Vec::new();
    let mut i: usize = 0;
    while i < data.len()
        invariant
            i <= data@.len(),
            out@.len() == i,
            forall|t: int| 0 <= t < i ==> #[trigger] out@[t] == fill,
        decreases data@.len() - i,
    {
        out.push(fill);
        i += 1;
    }
    let mut k: usize = 0;
    while k < total
        invariant
            total == perm@.len() * d,
            total <= data@.len(),
            data@.len() == data.len(),
            n == perm@.len(),
            rows_fit(perm@, d as int, data@.len() as int),
            k <= total,
            out@.len() == data@.len(),
            forall|t: int|
                0 <= t < data@.len() ==> #[trigger] out@[t] == match scatter_src(perm@, d as int, t, k as int) {
                    Some(s) => data@[s],
                    None => fill,
                },
        decreases total - k,
    {
        proof {
            assert(d > 0) by (nonlinear_arith)
                requires
                    k < total,
                    total == perm@.len() * d,
            ;
            lemma_row_source_bound(perm@, d as int, data@.len() as int, k as int);
            assert(perm@[(k / d) as int] * d <= perm@[(k / d) as int] * d + k % d) by {
                vstd::arithmetic::div_mod::lemma_mod_bound(k as int, d as int);
            }
        }
        let row = k / d;
        let col = k % d;
        let dst = (perm[row] as usize) * d + col;
        out.set(dst, data[k]);
        proof {
            assert forall|t: int| 0 <= t < data@.len() implies #[trigger] out@[t] == match scatter_src(
                perm@,
                d as int,
                t,
                k + 1,
            ) {
                Some(s) => data@[s],
                None => fill,
            } by {
                if t == dst as int {
                    assert(scatter_src(perm@, d as int, t, k + 1) == Some(k as int));
                } else {
                    assert(scatter_src(perm@, d as int, t, k + 1) == scatter_src(perm@, d as int, t, k as int));
                }
            }
        }
        k += 1;
    }
    proof {
        assert(out@ =~= unpermuted(data@, perm@, d as int, fill));
    }
    out
}

proof fn lemma_scatter_unique(perm: Seq<u32>, d: int, t: int, k: int, m: int)
    requires
        d > 0,
        0 <= k < m <= perm.len() * d,
        row_source(perm, d, k) == t,
        forall|a: int, b: int| 0 <= a < b < perm.len() ==> #[trigger] perm[a] != #[trigger] perm[b],
    ensures
        scatter_src(perm, d, t, m) == Some(k),
    decreases m,
{
    if m - 1 != k {
        let k2 = m - 1;
        assert(row_source(perm, d, k2) != t) by {
            vstd::arithmetic::div_mod::lemma_fundamental_div_mod(k, d);
            vstd::arithmetic::div_mod::lemma_fundamental_div_mod(k2, d);
            vstd::arithmetic::div_mod::lemma_mod_bound(k, d);
            vstd::arithmetic::div_mod::lemma_mod_bound(k2, d);
            vstd::arithmetic::div_mod::lemma_div_pos_is_pos(k, d);
            vstd::arithmetic::div_mod::lemma_div_pos_is_pos(k2, d);
            if row_source(perm, d, k2) == t {
                lemma_divmod(perm[k / d] as int, k % d, d);
                lemma_divmod(perm[k2 / d] as int, k2 % d, d);
                assert(perm[k / d] == perm[k2 / d]);
                assert(k % d == k2 % d);
                assert(k / d < perm.len() && k2 / d < perm.len()) by (nonlinear_arith)
                    requires
                        k < perm.len() * d,
                        k2 < perm.len() * d,
                        d > 0,
                        k == d * (k / d) + k % d,
                        k2 == d * (k2 / d) + k2 % d,
                        0 <= k % d,
                        0 <= k2 % d,
                ;
                if k / d != k2 / d {
                    if k / d < k2 / d {
                        assert(perm[k / d] != perm[k2 / d]);
                    } else {
                        assert(perm[k2 / d] != perm[k / d]);
                    }
                }
                assert(k == k2);
            }
        }
        lemma_scatter_unique(perm, d, t, k, m - 1);
    }
}

/// Putting permuted rows back restores the matrix: for a permutation
/// `perm` of the `n` rows of an `[n, d]` matrix, unpermuting what
/// permuting produced gives the matrix back.
/// Permuting rows by `perm` and then by its inverse (as
/// `invert_permutation` computes it) gives the rows back unchanged.
pub proof fn lemma_permute_by_inverse<T>(data: Seq<T>, perm: Seq<u32>, inv: Seq<u32>, d: int)
    requires
        is_permutation(perm),
        perm.len() <= 0x1_0000_0000,
        d > 0,
        data.len() == perm.len() * d,
        inv.len() == perm.len(),
        forall|i: int|
            0 <= i < perm.len() ==> #[trigger] inv[i] == match last_index_of(perm, i, perm.len() as int) {
                Some(j) => j as u32,
                None => 0u32,
            },
    ensures
        permuted(permuted(data, perm, d), inv, d) == data,
{
    lemma_invert_permutation(perm, inv);
    let n = perm.len() as int;
    let p = permuted(data, perm, d);
    let u = permuted(p, inv, d);
    assert(u.len() == data.len());
    assert forall|t: int| 0 <= t < data.len() implies #[trigger] u[t] == data[t] by {
        vstd::arithmetic::div_mod::lemma_fundamental_div_mod(t, d);
        vstd::arithmetic::div_mod::lemma_mod_bound(t, d);
        vstd::arithmetic::div_mod::lemma_div_pos_is_pos(t, d);
        let q = t / d;
        let c = t % d;
        assert(q < n) by (nonlinear_arith)
            requires
                t < n * d,
                d > 0,
                t == d * q + c,
                0 <= c,
        ;
        let j = inv[q] as int;
        assert(0 <= j < n);
        let k = j * d + c;
        lemma_divmod(j, c, d);
        assert(0 <= k < n * d) by (nonlinear_arith)
            requires
                0 <= j < n,
                0 <= c < d,
                k == j * d + c,
        ;
        assert(u[t] == p[k]);
        assert(p[k] == data[perm[j] * d + c]);
        assert(perm[j] == q);
        assert(q * d + c == t) by (nonlinear_arith)
            requires
                t == d * q + c,
        ;
    }
    assert(u =~= data);
}

pub proof fn lemma_unpermute_permute<T>(data: Seq<T>, perm: Seq<u32>, d: int, fill: T)
    requires
        is_permutation(perm),
        d > 0,
        data.len() == perm.len() * d,
    ensures
        unpermuted(permuted(data, perm, d), perm, d, fill) == data,
{
    let n = perm.len() as int;
    let p = permuted(data, perm, d);
    let u = unpermuted(p, perm, d, fill);
    assert forall|t: int| 0 <= t < data.len() implies #[trigger] u[t] == data[t] by {
        vstd::arithmetic::div_mod::lemma_fundamental_div_mod(t, d);
        vstd::arithmetic::div_mod::lemma_mod_bound(t, d);
        vstd::arithmetic::div_mod::lemma_div_pos_is_pos(t, d);
        let q = t / d;
        let c = t % d;
        assert(q < n) by (nonlinear_arith)
            requires
                t < n * d,
                d > 0,
                t == d * q + c,
                0 <= c,
        ;
        assert(occurs(perm, q));
        let j = choose|j: int| 0 <= j < perm.len() && #[trigger] perm[j] == q;
        let k = j * d + c;
        assert(k < n * d) by (nonlinear_arith)
            requires
                0 <= j < n,
                0 <= c < d,
                k == j * d + c,
        ;
        assert(k >= 0) by (nonlinear_arith)
            requires
                0 <= j,
                0 <= c,
                d > 0,
                k == j * d + c,
        ;
        lemma_divmod(j, c, d);
        assert(row_source(perm, d, k) == q * d + c);
        assert(q * d + c == t) by (nonlinear_arith)
            requires
                t == d * q + c,
        ;
        lemma_scatter_unique(perm, d, t, k, n * d);
        assert(p[k] == data[row_source(perm, d, k)]);
    }
    assert(u =~= data);
}

// ---------- permutation stream ----------

/// The permutation stream: the permutation as little-endian `u32` words
/// when order is preserved, nothing otherwise.
pub open spec fn perm_stream(perm: Seq<u32>, preserve_order: bool) -> Seq<u8> {
    if preserve_order {
        words_le(perm)
    } else {
        Seq::empty()
    }
}

/// Serializes the permutation stream.
pub fn encode_perm(perm: &[u32], preserve_order: bool) -> (r: Vec<u8>)
    ensures
        r@ == perm_stream(perm@, preserve_order),
{
    let mut out: Vec<u8> = Vec::new();
    if preserve_order {
        push_words(&mut out, perm);
        assert(out@ =~= words_le(perm@));
    }
    out
}

/// The identity permutation of `n` rows.
pub open spec fn identity_perm(n: nat) -> Seq<u32> {
    Seq::new(n, |i: int| i as u32)
}

/// The message for a permutation stream of the wrong size.
pub open spec fn perm_size_message(len: nat, n: nat) -> Seq<char> {
    "perm stream size "@ + decimal(len) + " != n_anchors*4="@ + decimal(n * 4)
}

/// Reads the permutation stream of `n` rows: empty means the identity
/// (Morton order is the output order), `4n` bytes are the permutation.
pub fn decode_perm(bytes: &[u8], n: usize) -> (r: Result<Vec<u32>, MesonError>)
    requires
        n * 4 <= usize::MAX,
        n <= u32::MAX + 1,
    ensures
        bytes@.len() == 0 ==> (r matches Ok(p) && p@ == identity_perm(n as nat)),
        bytes@.len() != 0 && bytes@.len() == 4 * n ==> (r matches Ok(p) && p@ == words_at(
            bytes@,
            0,
            n as int,
        )),
        bytes@.len() != 0 && bytes@.len() != 4 * n ==> (r matches Err(MesonError::MalformedMeta(m))
            && m@ == perm_size_message(bytes@.len(), n as nat)),
{
    if bytes.len() == 0 {
        let mut p: Vec<u32> = Vec::new();
        let mut i: usize = 0;
        while i < n
            invariant
                i <= n <= u32::MAX + 1,
                p@ == identity_perm(i as nat),
            decreases n - i,
        {
            p.push(i as u32);
            assert(p@ =~= identity_perm((i + 1) as nat));
            i += 1;
        }
        return Ok(p);
    }
    if bytes.len() == n * 4 {
        return Ok(read_words(bytes, 0, n));
    }
    let mut m = lit("perm stream size ");
    push_decimal(&mut m, bytes.len() as u64);
    append_str(&mut m, " != n_anchors*4=");
    push_decimal(&mut m, (n * 4) as u64);
    Err(MesonError::MalformedMeta(m))
}

/// A preserved permutation reads back as itself.
pub proof fn lemma_perm_roundtrip(perm: Seq<u32>)
    ensures
        words_at(perm_stream(perm, true), 0, perm.len() as int) == perm,
        perm_stream(perm, true).len() == 4 * perm.len(),
        perm_stream(perm, false).len() == 0,
{
    lemma_words_roundtrip(perm, Seq::empty(), Seq::empty());
    assert(Seq::<u8>::empty() + words_le(perm) + Seq::<u8>::empty() =~= words_le(perm));
}

// ---------- bit-packed position codes ----------

/// Bit `j` of the stream that lays the `bits`-bit codes end to end, least
/// significant bit first.
pub open spec fn stream_bit(codes: Seq<u32>, bits: int, j: int) -> u32 {
    if bits <= 0 || j < 0 || j >= codes.len() * bits {
        0
    } else {
        (codes[j / bits] >> ((j % bits) as u32)) & 1
    }
}

/// Bit `j` of a byte string, least significant bit of each byte first;
/// zero past the end.
pub open spec fn byte_bit(bytes: Seq<u8>, j: int) -> u8 {
    if j < 0 || j >= 8 * bytes.len() {
        0
    } else {
        (bytes[j / 8] >> ((j % 8) as u8)) & 1
    }
}

/// `bytes` holds exactly the bits of the packed stream of `codes`.
pub open spec fn packs(bytes: Seq<u8>, codes: Seq<u32>, bits: int) -> bool {
    &&& bytes.len() == (codes.len() * bits + 7) / 8
    &&& forall|j: int| 0 <= j < 8 * bytes.len() ==> #[trigger] byte_bit(bytes, j) as u32 == stream_bit(codes, bits, j)
}

/// Every code fits in `bits` bits.
pub open spec fn codes_fit(codes: Seq<u32>, bits: int) -> bool {
    forall|i: int| 0 <= i < codes.len() ==> (#[trigger] codes[i] as int) < vstd::arithmetic::power2::pow2(bits as nat)
}

proof fn lemma_set_bit(b: u8, t: u8, s: u8)
    by (bit_vector)
    requires
        t < 8,
        s < 8,
    ensures
        ((b | (1u8 << t)) >> t) & 1 == 1,
        s != t ==> ((b | (1u8 << t)) >> s) & 1 == (b >> s) & 1,
        (0u8 >> s) & 1 == 0,
{
}

/// Packs `bits`-bit codes end to end into bytes, least significant bit
/// first (the last byte is zero-padded).
pub fn pack_codes(codes: &[u32], bits: u8) -> (r: Vec<u8>)
    requires
        bits < 32,
        codes@.len() * bits + 7 <= usize::MAX,
    ensures
        packs(r@, codes@, bits as int),
{
    let total = codes.len() * (bits as usize);
    let nbytes = (total + 7) / 8;
    let mut out: Vec<u8> = Vec::new();
    let mut i: usize = 0;
    while i < nbytes
        invariant
            i <= nbytes,
            out@.len() == i,
            forall|m: int| 0 <= m < i ==> #[trigger] out@[m] == 0u8,
        decreases nbytes - i,
    {
        out.push(0u8);
        i += 1;
    }
    proof {
        assert forall|q: int| 0 <= q < 8 * nbytes implies #[trigger] byte_bit(out@, q) == 0u8 by {
            lemma_set_bit(0u8, 0u8, (q % 8) as u8);
        }
    }
    let mut j: usize = 0;
    while j < total
        invariant
            total == codes@.len() * bits,
            bits < 32,
            nbytes == (total + 7) / 8,
            out@.len() == nbytes,
            j <= total,
            forall|q: int|
                0 <= q < 8 * nbytes ==> #[trigger] byte_bit(out@, q) as u32 == if q < j {
                    stream_bit(codes@, bits as int, q)
                } else {
                    0
                },
        decreases total - j,
    {
        proof {
            assert(bits > 0) by (nonlinear_arith)
                requires
                    j < total,
                    total == codes@.len() * bits,
            ;
            vstd::arithmetic::div_mod::lemma_fundamental_div_mod(j as int, bits as int);
            assert(j / (bits as usize) < codes@.len()) by (nonlinear_arith)
                requires
                    j < codes@.len() * bits,
                    bits > 0,
                    j == bits * (j / (bits as usize)) + j % (bits as usize),
                    j % (bits as usize) >= 0,
            ;
        }
        let b = bits as usize;
        let cw = codes[j / b];
        assert(j % b < b);
        let sh = (j % b) as u32;
        let v = (cw >> sh) & 1u32;
        assert(v == 0 || v == 1) by (bit_vector)
            requires
                v == (cw >> sh) & 1u32,
        ;
        let m = j / 8;
        let t = (j % 8) as u8;
        let ghost before = out@;
        if v == 1 {
            let cur = out[m];
            out.set(m, cur | (1u8 << t));
        }
        proof {
            assert(stream_bit(codes@, bits as int, j as int) == v);
            assert forall|q: int| 0 <= q < 8 * nbytes implies #[trigger] byte_bit(out@, q) as u32 == if q < j + 1 {
                stream_bit(codes@, bits as int, q)
            } else {
                0
            } by {
                let qm = q / 8;
                let qs = (q % 8) as u8;
                if qm == m as int {
                    if v == 1 {
                        lemma_set_bit(before[m as int], t, qs);
                    }
                    if q != j as int {
                        assert(qs != t);
                    }
                } else {
                    assert(out@[qm] == before[qm]);
                }
                assert(byte_bit(before, q) as u32 == if q < j {
                    stream_bit(codes@, bits as int, q)
                } else {
                    0
                });
                if q == j as int {
                    assert(byte_bit(before, q) == 0u8);
                }
            }
        }
        j += 1;
    }
    out
}

/// Bit `s` of a word.
pub open spec fn wbit(x: u32, s: int) -> u32 {
    (x >> (s as u32)) & 1
}

/// `out[i]` holds the `bits` bits of `bytes` starting at bit `i * bits`,
/// and nothing above them.
pub open spec fn unpacks(out: Seq<u32>, bytes: Seq<u8>, n: int, bits: int) -> bool {
    &&& out.len() == n
    &&& forall|i: int, s: int|
        0 <= i < n && 0 <= s < 32 ==> #[trigger] wbit(out[i], s) == if s < bits {
            byte_bit(bytes, i * bits + s) as u32
        } else {
            0u32
        }
}

proof fn lemma_word_set_bit(v: u32, s: u32, t: u32)
    by (bit_vector)
    requires
        s < 32,
        t < 32,
    ensures
        ((v | (1u32 << s)) >> s) & 1 == 1,
        t != s ==> ((v | (1u32 << s)) >> t) & 1 == (v >> t) & 1,
        (0u32 >> t) & 1 == 0,
{
}

proof fn lemma_bit01(b: u8, t: u8)
    by (bit_vector)
    ensures
        (b >> t) & 1 == 0 || (b >> t) & 1 == 1,
{
}

/// Reads `n` codes of `bits` bits each from a packed stream (bits past the
/// end of `bytes` read as zero).
pub fn unpack_codes(bytes: &[u8], n: usize, bits: u8) -> (r: Vec<u32>)
    requires
        bits < 32,
        n * bits <= usize::MAX,
    ensures
        unpacks(r@, bytes@, n as int, bits as int),
{
    let mut out: Vec<u32> = Vec::new();
    let mut i: usize = 0;
    assert(bytes@.len() == bytes.len());
    while i < n
        invariant
            i <= n,
            n * bits <= usize::MAX,
            bits < 32,
            bytes@.len() == bytes.len(),
            out@.len() == i,
            forall|a: int, s: int|
                0 <= a < i && 0 <= s < 32 ==> #[trigger] wbit(out@[a], s) == if s < bits {
                    byte_bit(bytes@, a * bits + s) as u32
                } else {
                    0u32
                },
        decreases n - i,
    {
        let mut v: u32 = 0;
        let mut s: u8 = 0;
        proof {
            assert(i * bits + bits <= n * bits) by (nonlinear_arith)
                requires
                    i < n,
            ;
            assert forall|t: int| 0 <= t < 32 implies #[trigger] wbit(v, t) == 0u32 by {
                lemma_word_set_bit(0u32, 0u32, t as u32);
            }
        }
        while s < bits
            invariant
                i < n,
                i * bits + bits <= usize::MAX,
                bits < 32,
                s <= bits,
                bytes@.len() == bytes.len(),
                forall|t: int| 0 <= t < 32 ==> #[trigger] wbit(v, t) == if t < s {
                    byte_bit(bytes@, i * bits + t) as u32
                } else {
                    0u32
                },
            decreases bits - s,
        {
            let pos = i * (bits as usize) + (s as usize);
            let on = pos / 8 < bytes.len() && ((bytes[pos / 8] >> ((pos % 8) as u8)) & 1u8) == 1u8;
            let ghost before = v;
            if on {
                v = v | (1u32 << (s as u32));
            }
            proof {
                vstd::arithmetic::div_mod::lemma_fundamental_div_mod(pos as int, 8);
                assert((pos / 8 < bytes@.len()) <==> (pos < 8 * bytes@.len()));
                if pos / 8 < bytes@.len() {
                    lemma_bit01(bytes@[(pos / 8) as int], (pos % 8) as u8);
                }
                assert(on <==> byte_bit(bytes@, pos as int) == 1u8);
                assert(byte_bit(bytes@, pos as int) == 0u8 || byte_bit(bytes@, pos as int) == 1u8);
                assert forall|t: int| 0 <= t < 32 implies #[trigger] wbit(v, t) == if t < s + 1 {
                    byte_bit(bytes@, i * bits + t) as u32
                } else {
                    0u32
                } by {
                    assert(wbit(before, t) == if t < s {
                        byte_bit(bytes@, i * bits + t) as u32
                    } else {
                        0u32
                    });
                    if t == s as int {
                        assert(i * bits + t == pos);
                        if on {
                            lemma_word_set_bit(before, s as u32, s as u32);
                            assert(wbit(v, t) == 1u32);
                        } else {
                            assert(v == before);
                        }
                    } else {
                        if on {
                            lemma_word_set_bit(before, s as u32, t as u32);
                            assert(wbit(v, t) == wbit(before, t));
                        } else {
                            assert(v == before);
                        }
                    }
                }
            }
            s += 1;
        }
        out.push(v);
        proof {
            assert forall|a: int, t: int|
                0 <= a < i + 1 && 0 <= t < 32 implies #[trigger] wbit(out@[a], t) == if t < bits {
                byte_bit(bytes@, a * bits + t) as u32
            } else {
                0u32
            } by {
                if a == i as int {
                    assert(out@[a] == v);
                }
            }
        }
        i += 1;
    }
    out
}

proof fn lemma_bits_eq(x: u32, y: u32)
    by (bit_vector)
    requires
        (x >> 0u32) & 1 == (y >> 0u32) & 1,
        (x >> 1u32) & 1 == (y >> 1u32) & 1,
        (x >> 2u32) & 1 == (y >> 2u32) & 1,
        (x >> 3u32) & 1 == (y >> 3u32) & 1,
        (x >> 4u32) & 1 == (y >> 4u32) & 1,
        (x >> 5u32) & 1 == (y >> 5u32) & 1,
        (x >> 6u32) & 1 == (y >> 6u32) & 1,
        (x >> 7u32) & 1 == (y >> 7u32) & 1,
        (x >> 8u32) & 1 == (y >> 8u32) & 1,
        (x >> 9u32) & 1 == (y >> 9u32) & 1,
        (x >> 10u32) & 1 == (y >> 10u32) & 1,
        (x >> 11u32) & 1 == (y >> 11u32) & 1,
        (x >> 12u32) & 1 == (y >> 12u32) & 1,
        (x >> 13u32) & 1 == (y >> 13u32) & 1,
        (x >> 14u32) & 1 == (y >> 14u32) & 1,
        (x >> 15u32) & 1 == (y >> 15u32) & 1,
        (x >> 16u32) & 1 == (y >> 16u32) & 1,
        (x >> 17u32) & 1 == (y >> 17u32) & 1,
        (x >> 18u32) & 1 == (y >> 18u32) & 1,
        (x >> 19u32) & 1 == (y >> 19u32) & 1,
        (x >> 20u32) & 1 == (y >> 20u32) & 1,
        (x >> 21u32) & 1 == (y >> 21u32) & 1,
        (x >> 22u32) & 1 == (y >> 22u32) & 1,
        (x >> 23u32) & 1 == (y >> 23u32) & 1,
        (x >> 24u32) & 1 == (y >> 24u32) & 1,
        (x >> 25u32) & 1 == (y >> 25u32) & 1,
        (x >> 26u32) & 1 == (y >> 26u32) & 1,
        (x >> 27u32) & 1 == (y >> 27u32) & 1,
        (x >> 28u32) & 1 == (y >> 28u32) & 1,
        (x >> 29u32) & 1 == (y >> 29u32) & 1,
        (x >> 30u32) & 1 == (y >> 30u32) & 1,
        (x >> 31u32) & 1 == (y >> 31u32) & 1,
    ensures
        x == y,
{
}

proof fn lemma_high_bit_zero(x: u32, bits: u32, s: u32)
    by (bit_vector)
    requires
        bits <= s < 32,
        x < (1u32 << bits),
    ensures
        (x >> s) & 1 == 0,
{
}

/// Unpacking what was packed gives back every code, provided each fits in
/// `bits` bits.
pub proof fn lemma_pack_unpack(codes: Seq<u32>, bits: int, packed: Seq<u8>, out: Seq<u32>)
    requires
        0 <= bits < 32,
        forall|i: int| 0 <= i < codes.len() ==> (#[trigger] codes[i]) < (1u32 << (bits as u32)),
        packs(packed, codes, bits),
        unpacks(out, packed, codes.len() as int, bits),
    ensures
        out == codes,
{
    let n = codes.len() as int;
    assert forall|i: int| 0 <= i < n implies #[trigger] out[i] == codes[i] by {
        assert forall|s: int| 0 <= s < 32 implies #[trigger] wbit(out[i], s) == wbit(codes[i], s) by {
            if s < bits {
                let j = i * bits + s;
                assert(0 <= j < n * bits) by (nonlinear_arith)
                    requires
                        0 <= i < n,
                        0 <= s < bits,
                        j == i * bits + s,
                ;
                assert(j < 8 * packed.len());
                lemma_divmod(i, s, bits);
                assert(stream_bit(codes, bits, j) == wbit(codes[i], s));
            } else {
                lemma_high_bit_zero(codes[i], bits as u32, s as u32);
            }
        }
        let x = out[i];
        let y = codes[i];
        assert(wbit(x, 0) == wbit(y, 0));
        assert(wbit(x, 1) == wbit(y, 1));
        assert(wbit(x, 2) == wbit(y, 2));
        assert(wbit(x, 3) == wbit(y, 3));
        assert(wbit(x, 4) == wbit(y, 4));
        assert(wbit(x, 5) == wbit(y, 5));
        assert(wbit(x, 6) == wbit(y, 6));
        assert(wbit(x, 7) == wbit(y, 7));
        assert(wbit(x, 8) == wbit(y, 8));
        assert(wbit(x, 9) == wbit(y, 9));
        assert(wbit(x, 10) == wbit(y, 10));
        assert(wbit(x, 11) == wbit(y, 11));
        assert(wbit(x, 12) == wbit(y, 12));
        assert(wbit(x, 13) == wbit(y, 13));
        assert(wbit(x, 14) == wbit(y, 14));
        assert(wbit(x, 15) == wbit(y, 15));
        assert(wbit(x, 16) == wbit(y, 16));
        assert(wbit(x, 17) == wbit(y, 17));
        assert(wbit(x, 18) == wbit(y, 18));
        assert(wbit(x, 19) == wbit(y, 19));
        assert(wbit(x, 20) == wbit(y, 20));
        assert(wbit(x, 21) == wbit(y, 21));
        assert(wbit(x, 22) == wbit(y, 22));
        assert(wbit(x, 23) == wbit(y, 23));
        assert(wbit(x, 24) == wbit(y, 24));
        assert(wbit(x, 25) == wbit(y, 25));
        assert(wbit(x, 26) == wbit(y, 26));
        assert(wbit(x, 27) == wbit(y, 27));
        assert(wbit(x, 28) == wbit(y, 28));
        assert(wbit(x, 29) == wbit(y, 29));
        assert(wbit(x, 30) == wbit(y, 30));
        assert(wbit(x, 31) == wbit(y, 31));
        lemma_bits_eq(x, y);
    }
    assert(out =~= codes);
}

// ---------- container ----------

/// The CRC-32 (IEEE) checksum of a byte string.
pub uninterp spec fn crc32_ieee(bytes: Seq<u8>) -> u32;

/// `crc32fast::hash`.
///
/// Trusted: calls `crc32fast::hash`; the checksum, a function of the bytes
/// alone, is named `crc32_ieee(bytes)`.
#[verifier::external_body]
fn crc32_hash(bytes: &[u8]) -> (r: u32)
    ensures
        r == crc32_ieee(bytes@),
{
    crc32fast::hash(bytes)
}

/// The streams laid end to end.
pub open spec fn concat_streams(streams: Seq<Seq<u8>>) -> Seq<u8>
    decreases streams.len(),
{
    if streams.len() == 0 {
        Seq::empty()
    } else {
        concat_streams(streams.drop_last()) + streams.last()
    }
}

/// The offset/size table: each stream's offset (counted from `start`) and
/// size, both little-endian `u64`.
pub open spec fn stream_table(streams: Seq<Seq<u8>>, start: int) -> Seq<u8>
    decreases streams.len(),
{
    if streams.len() == 0 {
        Seq::empty()
    } else {
        let k = streams.len() - 1;
        stream_table(streams.drop_last(), start) + u64_le(
            (start + concat_streams(streams.drop_last()).len()) as u64,
        ) + u64_le(streams.last().len() as u64)
    }
}

/// Everything a container holds before its CRC: magic, version, position
/// bits, padding, stream count, stream table, metadata length and bytes,
/// then the streams.
#[verifier::opaque]
pub open spec fn meson_body(meta: Seq<u8>, streams: Seq<Seq<u8>>, xyz_bits: u8) -> Seq<u8> {
    let first = 24 + 16 * streams.len() + meta.len();
    meson_magic() + u32_le(VERSION) + seq![xyz_bits, 0u8, 0u8, 0u8] + u32_le(
        (streams.len() % 0x1_0000_0000) as u32,
    ) + stream_table(streams, first as int) + u32_le((meta.len() % 0x1_0000_0000) as u32) + meta
        + concat_streams(streams)
}

/// A whole container: the body followed by its CRC-32.
pub open spec fn meson_container(meta: Seq<u8>, streams: Seq<Seq<u8>>, xyz_bits: u8) -> Seq<u8> {
    meson_body(meta, streams, xyz_bits) + u32_le(crc32_ieee(meson_body(meta, streams, xyz_bits)))
}

pub open spec fn streams_view(streams: Seq<Vec<u8>>) -> Seq<Seq<u8>> {
    streams.map_values(|v: Vec<u8>| v@)
}

proof fn lemma_concat_streams_push(streams: Seq<Seq<u8>>, x: Seq<u8>)
    ensures
        concat_streams(streams.push(x)) == concat_streams(streams) + x,
{
    assert(streams.push(x).drop_last() == streams);
}

/// Writes a container around the metadata and the streams.
pub fn write_container(meta_bytes: &[u8], streams: &[Vec<u8>], xyz_bits: u8) -> (r: Vec<u8>)
    requires
        24 + 16 * streams@.len() + meta_bytes@.len() + concat_streams(streams_view(streams@)).len()
            <= u64::MAX,
    ensures
        r@ == meson_container(meta_bytes@, streams_view(streams@), xyz_bits),
{
    let ghost sv = streams_view(streams@);
    let mut buf: Vec<u8> = Vec::new();
    buf.push(0x4Du8);
    buf.push(0x47u8);
    buf.push(0x53u8);
    buf.push(0x50u8);
    buf.push(0x50u8);
    buf.push(0u8);
    buf.push(0u8);
    buf.push(0u8);
    push_u32_le(&mut buf, VERSION);
    buf.push(xyz_bits);
    buf.push(0u8);
    buf.push(0u8);
    buf.push(0u8);
    push_u32_le(&mut buf, ((streams.len() as u64) % 0x1_0000_0000u64) as u32);
    let ghost head = buf@;
    let first: u64 = 24 + 16 * (streams.len() as u64) + (meta_bytes.len() as u64);
    let mut acc: u64 = first;
    let mut k: usize = 0;
    while k < streams.len()
        invariant
            k <= streams@.len(),
            sv == streams_view(streams@),
            first == 24 + 16 * streams@.len() + meta_bytes@.len(),
            24 + 16 * streams@.len() + meta_bytes@.len() + concat_streams(sv).len() <= u64::MAX,
            acc == first + concat_streams(sv.subrange(0, k as int)).len(),
            buf@ == head + stream_table(sv.subrange(0, k as int), first as int),
        decreases streams@.len() - k,
    {
        let ghost pre = sv.subrange(0, k as int);
        proof {
            assert(sv.subrange(0, k + 1).drop_last() == pre);
            assert(sv.subrange(0, k + 1).last() == streams@[k as int]@);
            lemma_concat_streams_push(pre, streams@[k as int]@);
            assert(sv.subrange(0, k + 1) == pre.push(streams@[k as int]@));
            lemma_concat_prefix_len(sv, k + 1);
        }
        push_u64_le(&mut buf, acc);
        push_u64_le(&mut buf, streams[k].len() as u64);
        acc = acc + streams[k].len() as u64;
        k += 1;
    }
    proof {
        assert(sv.subrange(0, streams@.len() as int) == sv);
    }
    push_u32_le(&mut buf, ((meta_bytes.len() as u64) % 0x1_0000_0000u64) as u32);
    push_all(&mut buf, meta_bytes);
    let mut k: usize = 0;
    let ghost mid = buf@;
    while k < streams.len()
        invariant
            k <= streams@.len(),
            sv == streams_view(streams@),
            buf@ == mid + concat_streams(sv.subrange(0, k as int)),
        decreases streams@.len() - k,
    {
        proof {
            let pre = sv.subrange(0, k as int);
            assert(sv.subrange(0, k + 1) == pre.push(streams@[k as int]@));
            lemma_concat_streams_push(pre, streams@[k as int]@);
        }
        push_all(&mut buf, streams[k].as_slice());
        k += 1;
    }
    proof {
        assert(sv.subrange(0, streams@.len() as int) == sv);
        reveal(meson_body);
        assert(buf@ =~= meson_body(meta_bytes@, sv, xyz_bits));
    }
    let crc = crc32_hash(buf.as_slice());
    push_u32_le(&mut buf, crc);
    buf
}

proof fn lemma_concat_prefix_len(sv: Seq<Seq<u8>>, k: int)
    requires
        0 <= k <= sv.len(),
    ensures
        concat_streams(sv.subrange(0, k)).len() <= concat_streams(sv).len(),
    decreases sv.len() - k,
{
    if k < sv.len() {
        lemma_concat_prefix_len(sv, k + 1);
        let a = sv.subrange(0, k);
        assert(sv.subrange(0, k + 1) == a.push(sv[k]));
        lemma_concat_streams_push(a, sv[k]);
    } else {
        assert(sv.subrange(0, k) == sv);
    }
}

/// The fixed part of a container as the decoder reads it.
#[derive(Debug, Clone)]
pub struct MesonHeader {
    /// Position-quantization bits per axis.
    pub xyz_bits: u8,
    /// Byte offset of each stream.
    pub offsets: Vec<u64>,
    /// Byte size of each stream.
    pub sizes: Vec<u64>,
    /// Byte offset of the metadata JSON.
    pub meta_start: usize,
    /// Byte length of the metadata JSON.
    pub meta_len: u32,
}

/// Why a container header is rejected.
pub enum HeaderFault {
    BadMagic,
    Crc32Mismatch,
    Eof,
    UnsupportedVersion(u32),
    StreamCount(u32),
}

/// Where the metadata starts: after the 20-byte preamble, the eight
/// 16-byte table entries and the 4-byte metadata length.
pub open spec fn meta_start() -> int {
    152
}

/// The first reason the header of container `b` is rejected, if any.
pub open spec fn header_fault(b: Seq<u8>) -> Option<HeaderFault> {
    let body = b.len() - 4;
    if b.len() < 20 {
        Some(HeaderFault::BadMagic)
    } else if le_u32(b, body) != crc32_ieee(b.subrange(0, body)) {
        Some(HeaderFault::Crc32Mismatch)
    } else if b.subrange(0, 8) != meson_magic() {
        Some(HeaderFault::BadMagic)
    } else if le_u32(b, 8) != VERSION {
        Some(HeaderFault::UnsupportedVersion(le_u32(b, 8) as u32))
    } else if body < 20 {
        Some(HeaderFault::Eof)
    } else if le_u32(b, 16) != N_STREAMS {
        Some(HeaderFault::StreamCount(le_u32(b, 16) as u32))
    } else if body < meta_start() {
        Some(HeaderFault::Eof)
    } else {
        None
    }
}

/// `h` is the header stored in `b`.
pub open spec fn header_fields(b: Seq<u8>, h: MesonHeader) -> bool {
    &&& h.xyz_bits == b[12]
    &&& h.offsets@.len() == N_STREAMS
    &&& h.sizes@.len() == N_STREAMS
    &&& forall|k: int| 0 <= k < N_STREAMS ==> #[trigger] h.offsets@[k] == le_u64(b, 20 + 16 * k)
    &&& forall|k: int| 0 <= k < N_STREAMS ==> #[trigger] h.sizes@[k] == le_u64(b, 28 + 16 * k)
    &&& h.meta_start == meta_start()
    &&& h.meta_len == le_u32(b, 148)
}

/// The message for a wrong stream count.
pub open spec fn stream_count_message(n: u32) -> Seq<char> {
    "expected 8 streams, got "@ + decimal(n as nat)
}

/// Checks a container's CRC, magic, version and stream count, and reads
/// its stream table and metadata location.
pub fn read_container_header(bytes: &[u8]) -> (r: Result<MesonHeader, MesonError>)
    ensures
        match header_fault(bytes@) {
            None => r matches Ok(h) && header_fields(bytes@, h),
            Some(HeaderFault::BadMagic) => r matches Err(MesonError::BadMagic),
            Some(HeaderFault::Crc32Mismatch) => r matches Err(MesonError::Crc32Mismatch),
            Some(HeaderFault::Eof) => r matches Err(MesonError::Io(m)) && m@
                == "failed to fill whole buffer"@,
            Some(HeaderFault::UnsupportedVersion(v)) => r matches Err(
                MesonError::UnsupportedVersion(a, b),
            ) && a == v && b == VERSION,
            Some(HeaderFault::StreamCount(n)) => r matches Err(MesonError::MalformedMeta(m)) && m@
                == stream_count_message(n),
        },
{
    let len = bytes.len();
    if len < 20 {
        return Err(MesonError::BadMagic);
    }
    let body = len - 4;
    let stored = read_u32_le(bytes, body);
    let calc = crc32_hash(&bytes[0..body]);
    if stored != calc {
        return Err(MesonError::Crc32Mismatch);
    }
    let magic: [u8; 8] = [0x4Du8, 0x47u8, 0x53u8, 0x50u8, 0x50u8, 0u8, 0u8, 0u8];
    let mut same = true;
    let mut j: usize = 0;
    while j < 8
        invariant
            j <= 8,
            bytes@.len() >= 20,
            magic@ == meson_magic(),
            same == (forall|t: int| 0 <= t < j ==> bytes@[t] == magic@[t]),
        decreases 8 - j,
    {
        if bytes[j] != magic[j] {
            same = false;
        }
        j += 1;
    }
    if !same {
        proof {
            let t = choose|t: int| 0 <= t < 8 && bytes@[t] != magic@[t];
            assert(bytes@.subrange(0, 8)[t] != meson_magic()[t]);
        }
        return Err(MesonError::BadMagic);
    }
    proof {
        assert(bytes@.subrange(0, 8) =~= meson_magic());
    }
    let version = read_u32_le(bytes, 8);
    if version != VERSION {
        return Err(MesonError::UnsupportedVersion(version, VERSION));
    }
    if body < 20 {
        return Err(MesonError::Io(lit("failed to fill whole buffer")));
    }
    let xyz_bits = bytes[12];
    let n_streams = read_u32_le(bytes, 16);
    if n_streams as usize != N_STREAMS {
        let mut m = lit("expected 8 streams, got ");
        push_decimal(&mut m, n_streams as u64);
        return Err(MesonError::MalformedMeta(m));
    }
    if body < 152 {
        return Err(MesonError::Io(lit("failed to fill whole buffer")));
    }
    let mut offsets: Vec<u64> = Vec::new();
    let mut sizes: Vec<u64> = Vec::new();
    let mut k: usize = 0;
    while k < 8
        invariant
            k <= 8,
            bytes@.len() >= 156,
            offsets@.len() == k,
            sizes@.len() == k,
            forall|t: int| 0 <= t < k ==> #[trigger] offsets@[t] == le_u64(bytes@, 20 + 16 * t),
            forall|t: int| 0 <= t < k ==> #[trigger] sizes@[t] == le_u64(bytes@, 28 + 16 * t),
        decreases 8 - k,
    {
        offsets.push(read_u64_le(bytes, 20 + 16 * k));
        sizes.push(read_u64_le(bytes, 28 + 16 * k));
        k += 1;
    }
    let meta_len = read_u32_le(bytes, 148);
    Ok(MesonHeader { xyz_bits, offsets, sizes, meta_start: 152, meta_len })
}

// ---------- reading back a written container ----------

proof fn lemma_concat_len(sv: Seq<Seq<u8>>, k: int)
    requires
        0 <= k < sv.len(),
    ensures
        concat_streams(sv.subrange(0, k + 1)).len() == concat_streams(sv.subrange(0, k)).len()
            + sv[k].len(),
        concat_streams(sv.subrange(0, k + 1)) == concat_streams(sv.subrange(0, k)) + sv[k],
{
    assert(sv.subrange(0, k + 1) == sv.subrange(0, k).push(sv[k]));
    lemma_concat_streams_push(sv.subrange(0, k), sv[k]);
}

proof fn lemma_concat_piece(sv: Seq<Seq<u8>>, k: int, m: int)
    requires
        0 <= k < m <= sv.len(),
    ensures
        concat_streams(sv.subrange(0, m)).subrange(
            concat_streams(sv.subrange(0, k)).len() as int,
            concat_streams(sv.subrange(0, k)).len() + sv[k].len() as int,
        ) == sv[k],
        concat_streams(sv.subrange(0, k)).len() + sv[k].len() <= concat_streams(sv.subrange(0, m)).len(),
    decreases m - k,
{
    lemma_concat_len(sv, k);
    if m == k + 1 {
        let a = concat_streams(sv.subrange(0, k));
        assert((a + sv[k]).subrange(a.len() as int, a.len() + sv[k].len() as int) =~= sv[k]);
    } else {
        lemma_concat_piece(sv, k, m - 1);
        lemma_concat_len(sv, m - 1);
        let c = concat_streams(sv.subrange(0, m - 1));
        let a = concat_streams(sv.subrange(0, k));
        assert((c + sv[m - 1]).subrange(a.len() as int, a.len() + sv[k].len() as int) =~= c.subrange(
            a.len() as int,
            a.len() + sv[k].len() as int,
        ));
    }
}

proof fn lemma_table_entry(sv: Seq<Seq<u8>>, start: int, k: int, m: int)
    requires
        0 <= k < m <= sv.len(),
    ensures
        stream_table(sv.subrange(0, m), start).len() == 16 * m,
        stream_table(sv.subrange(0, m), start).subrange(16 * k, 16 * k + 16) == u64_le(
            (start + concat_streams(sv.subrange(0, k)).len()) as u64,
        ) + u64_le(sv[k].len() as u64),
    decreases m - k,
{
    let t = stream_table(sv.subrange(0, m), start);
    let sm = sv.subrange(0, m);
    assert(sm.drop_last() == sv.subrange(0, m - 1));
    assert(sm.last() == sv[m - 1]);
    lemma_table_len(sv, start, m - 1);
    if m == k + 1 {
        let p = stream_table(sv.subrange(0, k), start);
        let e = u64_le((start + concat_streams(sv.subrange(0, k)).len()) as u64) + u64_le(
            sv[k].len() as u64,
        );
        assert(t == p + u64_le((start + concat_streams(sv.subrange(0, k)).len()) as u64) + u64_le(
            sv[k].len() as u64,
        ));
        assert(t.subrange(16 * k, 16 * k + 16) =~= e);
    } else {
        lemma_table_entry(sv, start, k, m - 1);
        let p = stream_table(sv.subrange(0, m - 1), start);
        assert(t.subrange(16 * k, 16 * k + 16) =~= p.subrange(16 * k, 16 * k + 16));
    }
}

proof fn lemma_table_len(sv: Seq<Seq<u8>>, start: int, m: int)
    requires
        0 <= m <= sv.len(),
    ensures
        stream_table(sv.subrange(0, m), start).len() == 16 * m,
    decreases m,
{
    if m > 0 {
        let sm = sv.subrange(0, m);
        assert(sm.drop_last() == sv.subrange(0, m - 1));
        lemma_table_len(sv, start, m - 1);
    }
}

proof fn lemma_u64_at(x: Seq<u8>, w: u64, z: Seq<u8>, b: Seq<u8>)
    requires
        b == x + u64_le(w) + z,
    ensures
        le_u64(b, x.len() as int) == w,
{
    lemma_u64_le_roundtrip(w, x, z);
}

proof fn lemma_sub_u64(b: Seq<u8>, at: int, w: u64)
    requires
        0 <= at,
        at + 8 <= b.len(),
        b.subrange(at, at + 8) == u64_le(w),
    ensures
        le_u64(b, at) == w,
{
    assert(b =~= b.subrange(0, at) + u64_le(w) + b.subrange(at + 8, b.len() as int));
    lemma_u64_at(b.subrange(0, at), w, b.subrange(at + 8, b.len() as int), b);
}

proof fn lemma_sub_u32(b: Seq<u8>, at: int, w: u32)
    requires
        0 <= at,
        at + 4 <= b.len(),
        b.subrange(at, at + 4) == u32_le(w),
    ensures
        le_u32(b, at) == w,
{
    assert(b =~= b.subrange(0, at) + u32_le(w) + b.subrange(at + 4, b.len() as int));
    lemma_u32_le_roundtrip(w, b.subrange(0, at), b.subrange(at + 4, b.len() as int));
}

/// The pieces of a container body and where they sit.
proof fn lemma_body_layout(meta: Seq<u8>, sv: Seq<Seq<u8>>, bits: u8)
    requires
        sv.len() == N_STREAMS,
        meta.len() < 0x1_0000_0000,
    ensures
        ({
            let b = meson_body(meta, sv, bits);
            let first = 152 + meta.len() as int;
            let t = stream_table(sv, first);
            &&& b.len() == first + concat_streams(sv).len()
            &&& b.subrange(0, 8) == meson_magic()
            &&& b.subrange(8, 12) == u32_le(VERSION)
            &&& b[12] == bits
            &&& b.subrange(16, 20) == u32_le(8)
            &&& b.subrange(20, 148) == t
            &&& b.subrange(148, 152) == u32_le(meta.len() as u32)
            &&& b.subrange(152, first) == meta
            &&& b.subrange(first, b.len() as int) == concat_streams(sv)
        }),
{
    reveal(meson_body);
    let first = 152 + meta.len() as int;
    let t = stream_table(sv, first);
    lemma_table_len(sv, first, 8);
    assert(sv.subrange(0, 8) == sv);
    let p0 = meson_magic();
    let p1 = u32_le(VERSION);
    let p2 = seq![bits, 0u8, 0u8, 0u8];
    let p3 = u32_le(8);
    let p5 = u32_le(meta.len() as u32);
    let s = concat_streams(sv);
    let b = meson_body(meta, sv, bits);
    assert((sv.len() % 0x1_0000_0000) as u32 == 8u32);
    assert((meta.len() % 0x1_0000_0000) as u32 == meta.len() as u32);
    assert(b == p0 + p1 + p2 + p3 + t + p5 + meta + s);
    assert(b.subrange(0, 8) =~= p0);
    assert(b.subrange(8, 12) =~= p1);
    assert(b.subrange(16, 20) =~= p3);
    assert(b.subrange(20, 148) =~= t);
    assert(b.subrange(148, 152) =~= p5);
    assert(b.subrange(152, first) =~= meta);
    assert(b.subrange(first, b.len() as int) =~= s);
}

proof fn lemma_container_body(meta: Seq<u8>, sv: Seq<Seq<u8>>, bits: u8)
    requires
        sv.len() == N_STREAMS,
        meta.len() < 0x1_0000_0000,
    ensures
        ({
            let b = meson_body(meta, sv, bits);
            let c = meson_container(meta, sv, bits);
            &&& c.len() == b.len() + 4
            &&& c.subrange(0, b.len() as int) == b
            &&& le_u32(c, b.len() as int) == crc32_ieee(b)
        }),
{
    let b = meson_body(meta, sv, bits);
    let c = meson_container(meta, sv, bits);
    let crc = crc32_ieee(b);
    assert(c.subrange(0, b.len() as int) =~= b);
    lemma_u32_le_roundtrip(crc, b, Seq::empty());
    assert(c == b + u32_le(crc) + Seq::<u8>::empty());
}

proof fn lemma_container_prefix(meta: Seq<u8>, sv: Seq<Seq<u8>>, bits: u8)
    requires
        sv.len() == N_STREAMS,
        meta.len() < 0x1_0000_0000,
    ensures
        ({
            let c = meson_container(meta, sv, bits);
            &&& header_fault(c) is None
            &&& c[12] == bits
            &&& le_u32(c, 148) == meta.len()
            &&& c.subrange(meta_start(), meta_start() + meta.len() as int) == meta
        }),
{
    let b = meson_body(meta, sv, bits);
    let c = meson_container(meta, sv, bits);
    let first = 152 + meta.len() as int;
    lemma_body_layout(meta, sv, bits);
    lemma_container_body(meta, sv, bits);
    assert(c.subrange(0, 8) =~= b.subrange(0, 8));
    assert(c.subrange(8, 12) =~= b.subrange(8, 12));
    lemma_sub_u32(c, 8, VERSION);
    assert(c.subrange(16, 20) =~= b.subrange(16, 20));
    lemma_sub_u32(c, 16, 8);
    assert(c.subrange(148, 152) =~= b.subrange(148, 152));
    lemma_sub_u32(c, 148, meta.len() as u32);
    assert(c.subrange(152, first) =~= b.subrange(152, first));
    assert(c[12] == b[12]);
}

proof fn lemma_split_pair(p: Seq<u8>, q: Seq<u8>)
    ensures
        (p + q).subrange(0, p.len() as int) == p,
        (p + q).subrange(p.len() as int, p.len() + q.len() as int) == q,
{
    assert((p + q).subrange(0, p.len() as int) =~= p);
    assert((p + q).subrange(p.len() as int, p.len() + q.len() as int) =~= q);
}

proof fn lemma_nested_sub(b: Seq<u8>, x: int, y: int, t: Seq<u8>, u: int, v: int)
    requires
        0 <= x <= y <= b.len(),
        b.subrange(x, y) == t,
        0 <= u <= v <= t.len(),
    ensures
        b.subrange(x + u, x + v) == t.subrange(u, v),
{
    assert(b.subrange(x + u, x + v) =~= t.subrange(u, v));
}

#[verifier::spinoff_prover]
#[verifier::rlimit(60)]
proof fn lemma_body_table(meta: Seq<u8>, sv: Seq<Seq<u8>>, bits: u8, k: int)
    requires
        sv.len() == N_STREAMS,
        meta.len() < 0x1_0000_0000,
        152 + meta.len() + concat_streams(sv).len() <= u64::MAX,
        0 <= k < N_STREAMS,
    ensures
        ({
            let b = meson_body(meta, sv, bits);
            &&& 36 + 16 * k <= b.len()
            &&& le_u64(b, 20 + 16 * k) == 152 + meta.len() + concat_streams(sv.subrange(0, k)).len()
            &&& le_u64(b, 28 + 16 * k) == sv[k].len()
        }),
{
    let b = meson_body(meta, sv, bits);
    let first = 152 + meta.len() as int;
    lemma_body_layout(meta, sv, bits);
    let t = stream_table(sv, first);
    assert(sv.subrange(0, 8) == sv);
    lemma_table_entry(sv, first, k, 8);
    lemma_concat_piece(sv, k, 8);
    let a = concat_streams(sv.subrange(0, k)).len();
    let w0 = u64_le((first + a) as u64);
    let w1 = u64_le(sv[k].len() as u64);
    lemma_u64_le_roundtrip((first + a) as u64, Seq::empty(), Seq::empty());
    lemma_u64_le_roundtrip(sv[k].len() as u64, Seq::empty(), Seq::empty());
    lemma_split_pair(w0, w1);
    lemma_nested_sub(b, 20, 148, t, 16 * k, 16 * k + 16);
    lemma_nested_sub(b, 20 + 16 * k, 36 + 16 * k, w0 + w1, 0, 8);
    lemma_nested_sub(b, 20 + 16 * k, 36 + 16 * k, w0 + w1, 8, 16);
    lemma_sub_u64(b, 20 + 16 * k, (first + a) as u64);
    lemma_sub_u64(b, 28 + 16 * k, sv[k].len() as u64);
}

proof fn lemma_body_stream(meta: Seq<u8>, sv: Seq<Seq<u8>>, bits: u8, k: int)
    requires
        sv.len() == N_STREAMS,
        meta.len() < 0x1_0000_0000,
        152 + meta.len() + concat_streams(sv).len() <= u64::MAX,
        0 <= k < N_STREAMS,
    ensures
        ({
            let b = meson_body(meta, sv, bits);
            let off = le_u64(b, 20 + 16 * k);
            let size = le_u64(b, 28 + 16 * k);
            &&& 36 + 16 * k <= b.len()
            &&& off + size <= b.len()
            &&& b.subrange(off as int, (off + size) as int) == sv[k]
        }),
{
    let b = meson_body(meta, sv, bits);
    let first = 152 + meta.len() as int;
    lemma_body_layout(meta, sv, bits);
    lemma_body_table(meta, sv, bits, k);
    assert(sv.subrange(0, 8) == sv);
    lemma_concat_piece(sv, k, 8);
    let a = concat_streams(sv.subrange(0, k)).len() as int;
    let cs = concat_streams(sv);
    lemma_nested_sub(b, first, b.len() as int, cs, a, a + sv[k].len() as int);
}

proof fn lemma_prefix_reads(c: Seq<u8>, b: Seq<u8>, x: int, y: int)
    requires
        c.subrange(0, b.len() as int) == b,
        b.len() <= c.len(),
        0 <= x <= y <= b.len(),
    ensures
        c.subrange(x, y) == b.subrange(x, y),
        y - x == 8 ==> le_u64(c, x) == le_u64(b, x),
{
    assert forall|i: int| 0 <= i < b.len() implies c[i] == b[i] by {
        assert(c.subrange(0, b.len() as int)[i] == c[i]);
    }
    assert(c.subrange(x, y) =~= b.subrange(x, y));
}

proof fn lemma_container_stream(meta: Seq<u8>, sv: Seq<Seq<u8>>, bits: u8, k: int)
    requires
        sv.len() == N_STREAMS,
        meta.len() < 0x1_0000_0000,
        152 + meta.len() + concat_streams(sv).len() <= u64::MAX,
        0 <= k < N_STREAMS,
    ensures
        ({
            let c = meson_container(meta, sv, bits);
            c.subrange(
                le_u64(c, 20 + 16 * k) as int,
                (le_u64(c, 20 + 16 * k) + le_u64(c, 28 + 16 * k)) as int,
            ) == sv[k]
        }),
{
    let b = meson_body(meta, sv, bits);
    let c = meson_container(meta, sv, bits);
    lemma_container_body(meta, sv, bits);
    lemma_body_stream(meta, sv, bits, k);
    lemma_prefix_reads(c, b, 20 + 16 * k, 28 + 16 * k);
    lemma_prefix_reads(c, b, 28 + 16 * k, 36 + 16 * k);
    let off = le_u64(b, 20 + 16 * k);
    let size = le_u64(b, 28 + 16 * k);
    lemma_prefix_reads(c, b, off as int, (off + size) as int);
}

/// A container written by [`write_container`] with the eight streams
/// passes every header check of [`read_container_header`], and its stream
/// table locates exactly the streams written and the metadata.
pub proof fn lemma_container_roundtrip(meta: Seq<u8>, sv: Seq<Seq<u8>>, bits: u8)
    requires
        sv.len() == N_STREAMS,
        meta.len() < 0x1_0000_0000,
        152 + meta.len() + concat_streams(sv).len() <= u64::MAX,
    ensures
        ({
            let c = meson_container(meta, sv, bits);
            &&& header_fault(c) is None
            &&& c[12] == bits
            &&& le_u32(c, 148) == meta.len()
            &&& c.subrange(meta_start(), meta_start() + meta.len() as int) == meta
            &&& forall|k: int|
                0 <= k < N_STREAMS ==> c.subrange(
                    le_u64(c, 20 + 16 * k) as int,
                    (le_u64(c, 20 + 16 * k) + le_u64(c, 28 + 16 * k)) as int,
                ) == #[trigger] sv[k]
        }),
{
    lemma_container_prefix(meta, sv, bits);
    assert forall|k: int| 0 <= k < N_STREAMS implies meson_container(meta, sv, bits).subrange(
        le_u64(meson_container(meta, sv, bits), 20 + 16 * k) as int,
        (le_u64(meson_container(meta, sv, bits), 20 + 16 * k) + le_u64(meson_container(meta, sv, bits), 28 + 16 * k)) as int,
    ) == #[trigger] sv[k] by {
        lemma_container_stream(meta, sv, bits, k);
    }
}

// ---------- container layout ----------

/// What serde_json gives for member `key` of the top-level JSON object
/// parsed from `bytes`, read as a `u64`; `None` when the bytes are not
/// JSON, the value has no such member, or it is not a `u64`.
pub uninterp spec fn json_u64_member(bytes: Seq<u8>, key: Seq<char>) -> Option<u64>;

/// Parses `bytes` as a `serde_json::Value` and reads member `key` with
/// `Value::get` and `Value::as_u64`. Claimed: the result is
/// `json_u64_member(bytes, key)`, a function of the two arguments.
#[verifier::external_body]
fn json_member_u64(bytes: &[u8], key: &str) -> (r: Option<u64>)
    ensures
        r == json_u64_member(bytes@, key@),
{
    match serde_json::from_slice::<serde_json::Value>(bytes) {
        Ok(v) => match v.get(key) {
            Some(x) => x.as_u64(),
            None => None,
        },
        Err(_) => None,
    }
}

/// Why the layout of a container cannot be read.
pub enum LayoutFault {
    BadMagic,
    Crc32Mismatch,
    Eof,
}

/// Where the metadata length of a container with `n` streams sits.
pub open spec fn layout_meta_len_at(n: int) -> int {
    20 + 16 * n
}

/// The first reason the layout of `b` cannot be read, if any; the version
/// and stream count are not checked.
pub open spec fn layout_fault(b: Seq<u8>) -> Option<LayoutFault> {
    let body = b.len() - 4;
    if b.len() < 20 {
        Some(LayoutFault::BadMagic)
    } else if le_u32(b, body) != crc32_ieee(b.subrange(0, body)) {
        Some(LayoutFault::Crc32Mismatch)
    } else if b.subrange(0, 8) != meson_magic() {
        Some(LayoutFault::BadMagic)
    } else if body < 20 {
        Some(LayoutFault::Eof)
    } else if body < layout_meta_len_at(le_u32(b, 16) as int) + 4 {
        Some(LayoutFault::Eof)
    } else {
        None
    }
}

/// The metadata of a readable layout lies inside the file.
pub open spec fn layout_meta_fits(b: Seq<u8>) -> bool {
    let at = layout_meta_len_at(le_u32(b, 16) as int);
    b.len() >= 24 && b.len() >= at + 8 ==> at + 4 + le_u32(b, at) <= b.len()
}

/// `l` is the layout stored in `b`.
pub open spec fn layout_fields(b: Seq<u8>, l: ContainerLayout) -> bool {
    let n = le_u32(b, 16) as int;
    let at = layout_meta_len_at(n);
    let meta = b.subrange(at + 4, at + 4 + le_u32(b, at));
    &&& l.stream_sizes@.len() == n
    &&& forall|k: int| 0 <= k < n ==> #[trigger] l.stream_sizes@[k] == le_u64(b, 28 + 16 * k)
    &&& l.meta_bytes == le_u32(b, at)
    &&& l.n_anchors == match json_u64_member(meta, "n_anchors"@) {
        Some(x) => x as u32,
        None => 0u32,
    }
}

/// Whether the metadata of a readable layout lies inside the file.
pub fn layout_meta_in_file(bytes: &[u8]) -> (r: bool)
    ensures
        r == layout_meta_fits(bytes@),
{
    let len = bytes.len();
    if len < 24 {
        return true;
    }
    let n = read_u32_le(bytes, 16) as u128;
    let at: u128 = 20 + 16 * n;
    if (len as u128) < at + 8 {
        return true;
    }
    let meta_len = read_u32_le(bytes, at as usize) as u128;
    at + 4 + meta_len <= len as u128
}

/// Per-stream sizes, metadata size and anchor count of a container,
/// without decoding any stream.
pub fn container_layout(bytes: &[u8]) -> (r: Result<ContainerLayout, MesonError>)
    requires
        layout_meta_fits(bytes@),
    ensures
        match layout_fault(bytes@) {
            None => r matches Ok(l) && layout_fields(bytes@, l),
            Some(LayoutFault::BadMagic) => r matches Err(MesonError::BadMagic),
            Some(LayoutFault::Crc32Mismatch) => r matches Err(MesonError::Crc32Mismatch),
            Some(LayoutFault::Eof) => r matches Err(MesonError::Io(m)) && m@ == "failed to fill whole buffer"@,
        },
{
    let len = bytes.len();
    if len < 20 {
        return Err(MesonError::BadMagic);
    }
    let body = len - 4;
    let stored = read_u32_le(bytes, body);
    let calc = crc32_hash(&bytes[0..body]);
    if stored != calc {
        return Err(MesonError::Crc32Mismatch);
    }
    let magic: [u8; 8] = [0x4Du8, 0x47u8, 0x53u8, 0x50u8, 0x50u8, 0u8, 0u8, 0u8];
    let mut same = true;
    let mut j: usize = 0;
    while j < 8
        invariant
            j <= 8,
            bytes@.len() >= 20,
            magic@ == meson_magic(),
            same == (forall|t: int| 0 <= t < j ==> bytes@[t] == magic@[t]),
        decreases 8 - j,
    {
        if bytes[j] != magic[j] {
            same = false;
        }
        j += 1;
    }
    if !same {
        proof {
            let t = choose|t: int| 0 <= t < 8 && bytes@[t] != magic@[t];
            assert(bytes@.subrange(0, 8)[t] != meson_magic()[t]);
        }
        return Err(MesonError::BadMagic);
    }
    proof {
        assert(bytes@.subrange(0, 8) =~= meson_magic());
    }
    if body < 20 {
        return Err(MesonError::Io(lit("failed to fill whole buffer")));
    }
    let n = read_u32_le(bytes, 16);
    let at_w: u128 = 20 + 16 * (n as u128);
    if (body as u128) < at_w + 4 {
        return Err(MesonError::Io(lit("failed to fill whole buffer")));
    }
    let at = at_w as usize;
    let mut sizes: Vec<u64> = Vec::new();
    let mut k: usize = 0;
    while k < n as usize
        invariant
            k <= n,
            n == le_u32(bytes@, 16),
            at == 20 + 16 * (n as int),
            at + 4 <= bytes@.len() - 4,
            sizes@.len() == k,
            forall|i: int| 0 <= i < k ==> #[trigger] sizes@[i] == le_u64(bytes@, 28 + 16 * i),
        decreases n - k,
    {
        let sz = read_u64_le(bytes, 28 + 16 * k);
        sizes.push(sz);
        k += 1;
    }
    let meta_len = read_u32_le(bytes, at);
    let meta_start = at + 4;
    let meta_end = meta_start + meta_len as usize;
    let found = json_member_u64(&bytes[meta_start..meta_end], "n_anchors");
    let n_anchors: u32 = match found {
        Some(x) => x as u32,
        None => 0,
    };
    proof {
        assert(bytes@.subrange(meta_start as int, meta_end as int) == bytes@.subrange(
            meta_start as int,
            meta_end as int,
        ));
    }
    Ok(ContainerLayout { n_anchors, meta_bytes: meta_len as u64, stream_sizes: sizes })
}

} // verus!
