//! The splat intermediate representation as the verified core sees it, and
//! the stable scene hash.
//!
//! Every `f32` of a splat is held as its IEEE-754 bit pattern: the hash is
//! defined over the little-endian bytes of those patterns, so working on
//! the bits is exact.
use vstd::prelude::*;
use crate::bytes::{u32_le, words_le, push_words, push_u32_le};
use crate::text::{hex2, hex2_string, lit, append_str};

verus! {

/// Optional per-splat semantic tag (e.g. "product", "background").
#[derive(Debug, Clone)]
pub struct SemanticLabel(pub String);

/// Temporal/4D mode. Only static scenes are supported.
#[derive(Debug, Clone, Copy, PartialEq, Eq, Structural)]
pub enum TemporalMode {
    /// A single non-animated scene.
    Static,
    /// Reserved for future 4D content; not yet implemented.
    Dynamic,
}

/// Color of a splat, with every `f32` as its bit pattern.
#[derive(Debug, Clone)]
pub enum ColorBits {
    /// Plain RGB DC color.
    Rgb([u32; 3]),
    /// Spherical-harmonic coefficients; `coeffs.len() == 3 * (degree+1)^2`.
    Sh {
        /// SH band order (0..=3).
        degree: u8,
        /// Flattened SH coefficients (RGB interleaved per band).
        coeffs: Vec<u32>,
    },
}

/// One Gaussian splat, with every `f32` as its bit pattern.
#[derive(Debug, Clone)]
pub struct SplatBits {
    /// World-space position `[x, y, z]`.
    pub position: [u32; 3],
    /// Unit quaternion `[x, y, z, w]`.
    pub rotation: [u32; 4],
    /// Per-axis linear scale.
    pub scale: [u32; 3],
    /// Linear opacity.
    pub opacity: u32,
    /// RGB DC term or full SH coefficients.
    pub color: ColorBits,
}

/// The SH degree of a color (0 for a flat RGB color).
pub open spec fn degree_of(c: ColorBits) -> u8 {
    match c {
        ColorBits::Rgb(_) => 0,
        ColorBits::Sh { degree, .. } => degree,
    }
}

impl ColorBits {
    /// The SH degree (0 for a flat RGB color).
    pub fn degree(&self) -> (r: u8)
        ensures
            r == degree_of(*self),
    {
        match self {
            ColorBits::Rgb(_) => 0,
            ColorBits::Sh { degree, .. } => *degree,
        }
    }
}

/// The canonical bytes of one splat: position, rotation, scale, opacity,
/// then either the three DC values or the SH degree byte followed by every
/// coefficient, all `f32` little-endian.
pub open spec fn splat_stream(s: SplatBits) -> Seq<u8> {
    words_le(s.position@) + words_le(s.rotation@) + words_le(s.scale@) + u32_le(s.opacity)
        + match s.color {
        ColorBits::Rgb(c) => words_le(c@),
        ColorBits::Sh { degree, coeffs } => seq![degree] + words_le(coeffs@),
    }
}

/// The canonical bytes of a scene: its splats' bytes in input order.
pub open spec fn scene_stream(splats: Seq<SplatBits>) -> Seq<u8>
    decreases splats.len(),
{
    if splats.len() == 0 {
        Seq::empty()
    } else {
        scene_stream(splats.drop_last()) + splat_stream(splats.last())
    }
}

/// The BLAKE3 digest of a byte string.
pub uninterp spec fn blake3_digest(bytes: Seq<u8>) -> Seq<u8>;

/// `blake3::hash(bytes)`, as its raw bytes.
///
/// Trusted: calls `blake3::hash`. The contract names the digest
/// `blake3_digest(bytes)` and states its documented length (`OUT_LEN`, 32
/// bytes); the hash function itself is not stated.
#[verifier::external_body]
pub fn blake3_hash(bytes: &[u8]) -> (r: Vec<u8>)
    ensures
        r@ == blake3_digest(bytes@),
        r@.len() == 32,
{
    blake3::hash(bytes).as_bytes().to_vec()
}

/// Lowercase hexadecimal rendering of a byte string, two digits per byte.
pub open spec fn hex_of(b: Seq<u8>) -> Seq<char>
    decreases b.len(),
{
    if b.len() == 0 {
        Seq::empty()
    } else {
        hex_of(b.drop_last()) + hex2(b.last())
    }
}

/// Lowercase hexadecimal rendering of `bytes` (what `Hash::to_hex` gives
/// for a digest).
pub fn hex_string(bytes: &[u8]) -> (r: String)
    ensures
        r@ == hex_of(bytes@),
{
    let mut out = String::new();
    let mut i: usize = 0;
    while i < bytes.len()
        invariant
            i <= bytes@.len(),
            out@ == hex_of(bytes@.subrange(0, i as int)),
        decreases bytes@.len() - i,
    {
        let h = hex2_string(bytes[i]);
        append_str(&mut out, h.as_str());
        proof {
            let s = bytes@.subrange(0, i + 1);
            assert(s.drop_last() == bytes@.subrange(0, i as int));
            assert(s.last() == bytes@[i as int]);
        }
        i += 1;
    }
    assert(bytes@.subrange(0, bytes@.len() as int) == bytes@);
    out
}

/// `"blake3:"` followed by the hex digest of `bytes`.
pub open spec fn blake3_label(bytes: Seq<u8>) -> Seq<char> {
    "blake3:"@ + hex_of(blake3_digest(bytes))
}

/// `c` is a lowercase hexadecimal digit.
pub open spec fn lower_hex_char(c: char) -> bool {
    ('0' <= c <= '9') || ('a' <= c <= 'f')
}

/// The hex rendering has two lowercase hex digits per byte.
pub proof fn lemma_hex_of_shape(b: Seq<u8>)
    ensures
        hex_of(b).len() == 2 * b.len(),
        forall|i: int| 0 <= i < hex_of(b).len() ==> lower_hex_char(#[trigger] hex_of(b)[i]),
    decreases b.len(),
{
    if b.len() > 0 {
        lemma_hex_of_shape(b.drop_last());
        let p = hex_of(b.drop_last());
        let q = hex2(b.last());
        assert forall|i: int| 0 <= i < (p + q).len() implies lower_hex_char(#[trigger] (p + q)[i]) by {
            if i < p.len() {
                assert((p + q)[i] == p[i]);
            } else {
                assert((p + q)[i] == q[i - p.len()]);
                let hi = (b.last() / 16) as nat;
                let lo = (b.last() % 16) as nat;
                assert(hi % 16 < 16 && lo % 16 < 16);
            }
        }
    }
}

/// `"blake3:<hex>"` for the digest of `bytes`: the tag, then 64 lowercase
/// hexadecimal digits.
pub fn blake3_tagged(bytes: &[u8]) -> (r: String)
    ensures
        r@ == blake3_label(bytes@),
        r@.len() == 71,
        forall|i: int| 7 <= i < 71 ==> lower_hex_char(#[trigger] r@[i]),
{
    let digest = blake3_hash(bytes);
    proof {
        lemma_hex_of_shape(digest@);
        reveal_strlit("blake3:");
    }
    let hex = hex_string(digest.as_slice());
    let mut out = lit("blake3:");
    append_str(&mut out, hex.as_str());
    out
}

/// Appends the canonical bytes of one splat.
fn push_splat(out: &mut Vec<u8>, s: &SplatBits)
    ensures
        final(out)@ == old(out)@ + splat_stream(*s),
{
    push_words(out, &s.position);
    push_words(out, &s.rotation);
    push_words(out, &s.scale);
    push_u32_le(out, s.opacity);
    match &s.color {
        ColorBits::Rgb(c) => {
            push_words(out, c);
        },
        ColorBits::Sh { degree, coeffs } => {
            out.push(*degree);
            push_words(out, coeffs.as_slice());
        },
    }
    assert(final(out)@ =~= old(out)@ + splat_stream(*s));
}

/// The canonical byte stream of a scene.
pub fn scene_stream_bytes(splats: &[SplatBits]) -> (r: Vec<u8>)
    ensures
        r@ == scene_stream(splats@),
{
    let mut out: Vec<u8> = Vec::new();
    let mut i: usize = 0;
    while i < splats.len()
        invariant
            i <= splats@.len(),
            out@ == scene_stream(splats@.subrange(0, i as int)),
        decreases splats@.len() - i,
    {
        push_splat(&mut out, &splats[i]);
        proof {
            let s = splats@.subrange(0, i + 1);
            assert(s.drop_last() == splats@.subrange(0, i as int));
            assert(s.last() == splats@[i as int]);
        }
        i += 1;
    }
    assert(splats@.subrange(0, splats@.len() as int) == splats@);
    out
}

/// The deterministic hash of a scene, `"blake3:<hex>"`, over its canonical
/// byte stream.
pub fn scene_hash(splats: &[SplatBits]) -> (r: String)
    ensures
        r@ == blake3_label(scene_stream(splats@)),
        r@.len() == 71,
        forall|i: int| 7 <= i < 71 ==> lower_hex_char(#[trigger] r@[i]),
{
    let stream = scene_stream_bytes(splats);
    blake3_tagged(stream.as_slice())
}

/// Two scenes with the same canonical bytes hash alike, and the hash always
/// starts with the `blake3:` tag.
pub proof fn lemma_scene_hash_stable(a: Seq<SplatBits>, b: Seq<SplatBits>)
    requires
        scene_stream(a) == scene_stream(b),
    ensures
        blake3_label(scene_stream(a)) == blake3_label(scene_stream(b)),
        blake3_label(scene_stream(a)).subrange(0, 7) == "blake3:"@,
{
    reveal_strlit("blake3:");
    let l = blake3_label(scene_stream(a));
    assert(l.subrange(0, 7) =~= "blake3:"@);
}

} // verus!
