//! SPZ v2 container: a fixed 16-byte little-endian header followed by a
//! zlib-compressed payload of per-attribute sections.
//!
//! The header, the section layout and the integer packings of the payload
//! are verified here; zlib itself is flate2's.
use vstd::prelude::*;
use std::io::Read;
use std::io::Write;
use flate2::read::ZlibDecoder;
use flate2::write::ZlibEncoder;
use flate2::Compression;
use crate::bytes::{le_u32, u32_le, read_u32_le, push_u32_le, push_all, copy_range, lemma_u32_le_roundtrip};

verus! {

/// "SNPS" little-endian magic.
pub const SPZ_MAGIC: u32 = 0x5053_4e47;

/// SPZ wire version.
pub const SPZ_VERSION: u32 = 2;

/// Fixed-point fraction bits used for positions by the writer.
pub const SPZ_FRACTIONAL_BITS: u8 = 12;

/// SPZ I/O errors.
#[derive(Debug, Clone, PartialEq, Eq)]
pub enum SpzError {
    /// Underlying IO failed.
    Io(String),
    /// File does not begin with the SPZ magic.
    BadMagic,
    /// SPZ version differs from the one we support.
    UnsupportedVersion(u32),
    /// zlib decompression failed.
    Decompress(String),
    /// Payload was shorter than the header declared.
    Truncated,
}

/// The human-readable message of an error.
pub open spec fn spz_message(e: SpzError) -> Seq<char> {
    match e {
        SpzError::Io(m) => "io error: "@ + m@,
        SpzError::BadMagic => "not an SPZ file (bad magic)"@,
        SpzError::UnsupportedVersion(v) => "unsupported SPZ version "@ + crate::text::decimal(v as nat),
        SpzError::Decompress(m) => "decompression failed: "@ + m@,
        SpzError::Truncated => "truncated payload"@,
    }
}

impl SpzError {
    /// The human-readable message of the error.
    pub fn message(&self) -> (r: String)
        ensures
            r@ == spz_message(*self),
    {
        match self {
            SpzError::Io(m) => {
                let mut s = crate::text::lit("io error: ");
                crate::text::append_str(&mut s, m.as_str());
                s
            },
            SpzError::BadMagic => crate::text::lit("not an SPZ file (bad magic)"),
            SpzError::UnsupportedVersion(v) => {
                let mut s = crate::text::lit("unsupported SPZ version ");
                crate::text::push_decimal(&mut s, *v as u64);
                s
            },
            SpzError::Decompress(m) => {
                let mut s = crate::text::lit("decompression failed: ");
                crate::text::append_str(&mut s, m.as_str());
                s
            },
            SpzError::Truncated => crate::text::lit("truncated payload"),
        }
    }
}

/// The fields of the fixed header that the payload depends on.
#[derive(Debug, Clone, Copy, PartialEq, Eq)]
pub struct SpzHeader {
    /// Number of splats in the payload.
    pub splat_count: u32,
    /// SH degree carried by the payload (0 or 1).
    pub sh_degree: u8,
    /// Fixed-point fraction bits of the positions.
    pub fractional_bits: u8,
}

/// The 16 header bytes: magic, version, count, SH degree, fraction bits,
/// and two zero bytes (flags, reserved).
pub open spec fn spz_header_bytes(h: SpzHeader) -> Seq<u8> {
    u32_le(SPZ_MAGIC) + u32_le(SPZ_VERSION) + u32_le(h.splat_count)
        + seq![h.sh_degree, h.fractional_bits, 0u8, 0u8]
}

/// The header fields found in the first 16 bytes of `b`.
pub open spec fn spz_header_at(b: Seq<u8>) -> SpzHeader {
    SpzHeader { splat_count: le_u32(b, 8) as u32, sh_degree: b[12], fractional_bits: b[13] }
}

/// How reading the framing of an SPZ file ends, before the payload is
/// inflated: too short, wrong magic, wrong version, or the header and the
/// compressed tail.
pub enum SpzFrame {
    Truncated,
    BadMagic,
    UnsupportedVersion(u32),
    Framed(SpzHeader, Seq<u8>),
}

/// The framing of `b`.
pub open spec fn spz_frame(b: Seq<u8>) -> SpzFrame {
    if b.len() < 16 {
        SpzFrame::Truncated
    } else if le_u32(b, 0) != SPZ_MAGIC {
        SpzFrame::BadMagic
    } else if le_u32(b, 4) != SPZ_VERSION {
        SpzFrame::UnsupportedVersion(le_u32(b, 4) as u32)
    } else {
        SpzFrame::Framed(spz_header_at(b), b.subrange(16, b.len() as int))
    }
}

/// The zlib stream that flate2's `ZlibEncoder` at the default level makes
/// of `data`.
pub uninterp spec fn zlib_deflate(data: Seq<u8>) -> Seq<u8>;

/// What flate2's `ZlibDecoder` yields when `data` is read to its end:
/// the inflated bytes, or `None` when it reports an error.
pub uninterp spec fn zlib_inflate(data: Seq<u8>) -> Option<Seq<u8>>;

/// Compresses `data` with flate2's `ZlibEncoder` (default level) into a
/// `Vec`. Claimed: the write succeeds (the encoder's only sink is a `Vec`,
/// whose `write` never fails, and compression itself reports no error), the
/// result is `zlib_deflate(data)`, and inflating it gives `data` back (zlib
/// is lossless).
#[verifier::external_body]
fn deflate(data: &[u8]) -> (r: Result<Vec<u8>, String>)
    ensures
        r is Ok,
        r->Ok_0@ == zlib_deflate(data@),
        zlib_inflate(r->Ok_0@) == Some(data@),
{
    let mut enc = ZlibEncoder::new(Vec::new(), Compression::default());
    enc.write_all(data).map_err(|e| e.to_string())?;
    enc.finish().map_err(|e| e.to_string())
}

/// Inflates `data` with flate2's `ZlibDecoder`, reading to the end.
/// Claimed: the result is `zlib_inflate(data)`, with the decoder's error
/// text on failure.
#[verifier::external_body]
fn inflate(data: &[u8]) -> (r: Result<Vec<u8>, String>)
    ensures
        r is Ok <==> zlib_inflate(data@) is Some,
        r is Ok ==> zlib_inflate(data@) == Some(r->Ok_0@),
{
    let mut dec = ZlibDecoder::new(data);
    let mut out: Vec<u8> = Vec::new();
    match dec.read_to_end(&mut out) {
        Ok(_) => Ok(out),
        Err(e) => Err(e.to_string()),
    }
}

/// The SH degree an SPZ payload carries for splats of the given degrees:
/// 1 when any splat has SH beyond DC, else 0 (the payload stops at degree 1).
pub open spec fn spz_degree_for(degrees: Seq<u8>) -> u8 {
    if exists|i: int| 0 <= i < degrees.len() && degrees[i] >= 1 {
        1
    } else {
        0
    }
}

/// The SH degree written for a scene whose splats have `degrees`.
pub fn spz_sh_degree(degrees: &[u8]) -> (r: u8)
    ensures
        r == spz_degree_for(degrees@),
{
    let mut best: u8 = 0;
    let mut i: usize = 0;
    while i < degrees.len()
        invariant
            i <= degrees@.len(),
            best <= 1,
            best == 1 <==> exists|j: int| 0 <= j < i && degrees@[j] >= 1,
        decreases degrees@.len() - i,
    {
        if degrees[i] >= 1 {
            best = 1;
        }
        i += 1;
    }
    best
}

/// The header written for a scene of `splat_count` splats with the given
/// per-splat SH degrees; the count is stored modulo 2^32.
pub fn spz_header_for(splat_count: usize, degrees: &[u8]) -> (r: SpzHeader)
    ensures
        r.splat_count == splat_count as u32,
        r.sh_degree == spz_degree_for(degrees@),
        r.fractional_bits == SPZ_FRACTIONAL_BITS,
{
    SpzHeader {
        splat_count: splat_count as u32,
        sh_degree: spz_sh_degree(degrees),
        fractional_bits: SPZ_FRACTIONAL_BITS,
    }
}

/// The 16 header bytes of `h`.
pub fn write_spz_header(h: &SpzHeader) -> (r: Vec<u8>)
    ensures
        r@ == spz_header_bytes(*h),
{
    let mut out: Vec<u8> = Vec::new();
    push_u32_le(&mut out, SPZ_MAGIC);
    push_u32_le(&mut out, SPZ_VERSION);
    push_u32_le(&mut out, h.splat_count);
    out.push(h.sh_degree);
    out.push(h.fractional_bits);
    out.push(0);
    out.push(0);
    assert(out@ =~= spz_header_bytes(*h));
    out
}

/// Frames a payload: the header bytes followed by the zlib-compressed
/// payload. A failing compression is reported as `Io`.
pub fn encode_spz(h: &SpzHeader, payload: &[u8]) -> (r: Result<Vec<u8>, SpzError>)
    ensures
        r is Ok ==> r->Ok_0@ == spz_header_bytes(*h) + zlib_deflate(payload@),
        r is Ok ==> zlib_inflate(r->Ok_0@.subrange(16, r->Ok_0@.len() as int)) == Some(payload@),
        r is Ok,
{
    let compressed = match deflate(payload) {
        Ok(c) => c,
        Err(m) => {
            return Err(SpzError::Io(m));
        },
    };
    let mut out = write_spz_header(h);
    push_all(&mut out, compressed.as_slice());
    proof {
        let hb = spz_header_bytes(*h);
        assert(hb.len() == 16);
        assert(out@.subrange(16, out@.len() as int) =~= compressed@);
    }
    Ok(out)
}

/// Reads the framing of an SPZ file and inflates its payload. Returns the
/// header and the inflated payload bytes.
pub fn read_spz_frame(bytes: &[u8]) -> (r: Result<(SpzHeader, Vec<u8>), SpzError>)
    ensures
        spz_frame(bytes@) is Truncated ==> r == Err::<(SpzHeader, Vec<u8>), SpzError>(SpzError::Truncated),
        spz_frame(bytes@) is BadMagic ==> r == Err::<(SpzHeader, Vec<u8>), SpzError>(SpzError::BadMagic),
        spz_frame(bytes@) matches SpzFrame::UnsupportedVersion(v)
            ==> r == Err::<(SpzHeader, Vec<u8>), SpzError>(SpzError::UnsupportedVersion(v)),
        spz_frame(bytes@) matches SpzFrame::Framed(h, z) ==> match r {
            Ok((rh, p)) => rh == h && zlib_inflate(z) == Some(p@),
            Err(e) => e is Decompress && zlib_inflate(z) is None,
        },
{
    if bytes.len() < 16 {
        return Err(SpzError::Truncated);
    }
    let magic = read_u32_le(bytes, 0);
    if magic != SPZ_MAGIC {
        return Err(SpzError::BadMagic);
    }
    let version = read_u32_le(bytes, 4);
    if version != SPZ_VERSION {
        return Err(SpzError::UnsupportedVersion(version));
    }
    let splat_count = read_u32_le(bytes, 8);
    let h = SpzHeader { splat_count, sh_degree: bytes[12], fractional_bits: bytes[13] };
    let compressed = copy_range(bytes, 16, bytes.len());
    match inflate(compressed.as_slice()) {
        Ok(p) => Ok((h, p)),
        Err(m) => Err(SpzError::Decompress(m)),
    }
}

/// Reading the framing of an encoded file gives back its header and its
/// compressed payload.
pub proof fn lemma_spz_frame_roundtrip(h: SpzHeader, z: Seq<u8>)
    requires
        h.splat_count <= u32::MAX,
    ensures
        spz_frame(spz_header_bytes(h) + z) == SpzFrame::Framed(h, z),
{
    let b = spz_header_bytes(h) + z;
    let tail = seq![h.sh_degree, h.fractional_bits, 0u8, 0u8] + z;
    assert(b =~= Seq::<u8>::empty() + u32_le(SPZ_MAGIC) + (u32_le(SPZ_VERSION) + u32_le(h.splat_count) + tail));
    lemma_u32_le_roundtrip(SPZ_MAGIC, Seq::<u8>::empty(), u32_le(SPZ_VERSION) + u32_le(h.splat_count) + tail);
    assert(b =~= u32_le(SPZ_MAGIC) + u32_le(SPZ_VERSION) + (u32_le(h.splat_count) + tail));
    lemma_u32_le_roundtrip(SPZ_VERSION, u32_le(SPZ_MAGIC), u32_le(h.splat_count) + tail);
    assert(b =~= (u32_le(SPZ_MAGIC) + u32_le(SPZ_VERSION)) + u32_le(h.splat_count) + tail);
    lemma_u32_le_roundtrip(h.splat_count, u32_le(SPZ_MAGIC) + u32_le(SPZ_VERSION), tail);
    assert(b[12] == h.sh_degree);
    assert(b[13] == h.fractional_bits);
    assert(spz_header_at(b) == h);
    assert(b.subrange(16, b.len() as int) =~= z);
}


/// Byte length of the payload of `n` splats at SH degree `sh`: positions
/// (9 bytes each), scales (3), rotations (3), opacities (1), DC colors (3),
/// and 45 SH bytes per splat from degree 1 on.
pub open spec fn payload_len(n: nat, sh: u8) -> nat {
    19 * n + if sh >= 1 { 45 * n } else { 0 }
}

/// The payload of an SPZ file, section by section.
#[derive(Debug, Clone, PartialEq, Eq)]
pub struct SpzSections {
    /// Three 24-bit fixed-point values per splat.
    pub positions: Vec<u8>,
    /// Three log-quantized bytes per splat.
    pub scales: Vec<u8>,
    /// Three smallest-three quaternion bytes per splat.
    pub rotations: Vec<u8>,
    /// One opacity byte per splat.
    pub alphas: Vec<u8>,
    /// Three DC color bytes per splat.
    pub colors: Vec<u8>,
    /// 45 SH bytes per splat, present from degree 1 on.
    pub sh: Option<Vec<u8>>,
}

/// The sections hold exactly the bytes of `n` splats at degree `sh`.
pub open spec fn sections_fit(s: SpzSections, n: nat, sh: u8) -> bool {
    &&& s.positions@.len() == 9 * n
    &&& s.scales@.len() == 3 * n
    &&& s.rotations@.len() == 3 * n
    &&& s.alphas@.len() == n
    &&& s.colors@.len() == 3 * n
    &&& if sh >= 1 {
        s.sh matches Some(v) && v@.len() == 45 * n
    } else {
        s.sh is None
    }
}

/// The payload bytes of the sections, in wire order.
pub open spec fn sections_bytes(s: SpzSections) -> Seq<u8> {
    s.positions@ + s.scales@ + s.rotations@ + s.alphas@ + s.colors@ + match s.sh {
        Some(v) => v@,
        None => Seq::empty(),
    }
}

/// `s` holds the sections that `payload` splits into for `n` splats at
/// degree `sh` (bytes beyond them are ignored).
pub open spec fn splits_into(s: SpzSections, payload: Seq<u8>, n: int, sh: u8) -> bool {
    &&& s.positions@ == payload.subrange(0, 9 * n)
    &&& s.scales@ == payload.subrange(9 * n, 12 * n)
    &&& s.rotations@ == payload.subrange(12 * n, 15 * n)
    &&& s.alphas@ == payload.subrange(15 * n, 16 * n)
    &&& s.colors@ == payload.subrange(16 * n, 19 * n)
    &&& if sh >= 1 {
        s.sh matches Some(v) && v@ == payload.subrange(19 * n, 64 * n)
    } else {
        s.sh is None
    }
}

/// Splits an inflated payload into its sections; `Truncated` when it is
/// shorter than `n` splats at degree `sh` need.
pub fn split_payload(payload: &[u8], n: usize, sh_degree: u8) -> (r: Result<SpzSections, SpzError>)
    ensures
        r is Err <==> payload@.len() < payload_len(n as nat, sh_degree),
        r is Err ==> r->Err_0 == SpzError::Truncated,
        r is Ok ==> splits_into(r->Ok_0, payload@, n as int, sh_degree),
{
    let wide: u128 = n as u128;
    let total: u128 = if sh_degree >= 1 { 64 * wide } else { 19 * wide };
    if (payload.len() as u128) < total {
        return Err(SpzError::Truncated);
    }
    let positions = copy_range(payload, 0, 9 * n);
    let scales = copy_range(payload, 9 * n, 12 * n);
    let rotations = copy_range(payload, 12 * n, 15 * n);
    let alphas = copy_range(payload, 15 * n, 16 * n);
    let colors = copy_range(payload, 16 * n, 19 * n);
    let sh = if sh_degree >= 1 {
        Some(copy_range(payload, 19 * n, 64 * n))
    } else {
        None
    };
    Ok(SpzSections { positions, scales, rotations, alphas, colors, sh })
}

/// The payload bytes of `s`, sections in wire order.
pub fn join_payload(s: &SpzSections) -> (r: Vec<u8>)
    ensures
        r@ == sections_bytes(*s),
{
    let mut out: Vec<u8> = Vec::new();
    push_all(&mut out, s.positions.as_slice());
    push_all(&mut out, s.scales.as_slice());
    push_all(&mut out, s.rotations.as_slice());
    push_all(&mut out, s.alphas.as_slice());
    push_all(&mut out, s.colors.as_slice());
    match &s.sh {
        Some(v) => {
            push_all(&mut out, v.as_slice());
        },
        None => {},
    }
    assert(out@ =~= sections_bytes(*s));
    out
}

/// Splitting the joined sections of `n` splats gives the same sections back.
pub proof fn lemma_sections_roundtrip(s: SpzSections, n: nat, sh: u8)
    requires
        sections_fit(s, n, sh),
    ensures
        sections_bytes(s).len() == payload_len(n, sh),
        splits_into(s, sections_bytes(s), n as int, sh),
{
    let b = sections_bytes(s);
    let n = n as int;
    assert(b.subrange(0, 9 * n) =~= s.positions@);
    assert(b.subrange(9 * n, 12 * n) =~= s.scales@);
    assert(b.subrange(12 * n, 15 * n) =~= s.rotations@);
    assert(b.subrange(15 * n, 16 * n) =~= s.alphas@);
    assert(b.subrange(16 * n, 19 * n) =~= s.colors@);
    if sh >= 1 {
        let v = s.sh->Some_0;
        assert(b.subrange(19 * n, 64 * n) =~= v@);
    }
}

/// The 24 bits of a position stored in fixed point: the value clamped to
/// the signed 24-bit range.
pub open spec fn clamp24(v: int) -> int {
    if v < -8388608 {
        -8388608
    } else if v > 8388607 {
        8388607
    } else {
        v
    }
}

/// The three little-endian bytes of the two's-complement 24-bit `v`.
pub open spec fn le24(v: int) -> Seq<u8> {
    let u = v % 16777216;
    seq![(u % 256) as u8, ((u / 256) % 256) as u8, (u / 65536) as u8]
}

/// The signed value of three little-endian two's-complement bytes.
pub open spec fn signed24(b: [u8; 3]) -> int {
    let u = b[0] as int + 256 * (b[1] as int) + 65536 * (b[2] as int);
    if u >= 8388608 {
        u - 16777216
    } else {
        u
    }
}

/// Packs an already-scaled fixed-point position component: clamped to the
/// signed 24-bit range and written as three little-endian bytes.
pub fn pack_pos_fixed(v: i32) -> (r: [u8; 3])
    ensures
        r@ == le24(clamp24(v as int)),
{
    let c: i32 = if v < -8388608 {
        -8388608
    } else if v > 8388607 {
        8388607
    } else {
        v
    };
    let u: u32 = if c < 0 {
        (c + 16777216) as u32
    } else {
        c as u32
    };
    assert(u as int == (c as int) % 16777216);
    let r = [(u % 256) as u8, ((u / 256) % 256) as u8, (u / 65536) as u8];
    assert(r@ =~= le24(clamp24(v as int)));
    r
}

/// Reads a 24-bit two's-complement fixed-point position component.
pub fn unpack_pos_fixed(b: [u8; 3]) -> (r: i32)
    ensures
        r as int == signed24(b),
{
    let u: u32 = b[0] as u32 + 256 * (b[1] as u32) + 65536 * (b[2] as u32);
    if u >= 8388608 {
        (u as i32) - 16777216
    } else {
        u as i32
    }
}

/// Unpacking a packed position component gives the clamped component.
pub proof fn lemma_pos_fixed_roundtrip(v: int)
    ensures
        le24(clamp24(v)).len() == 3,
        signed24([le24(clamp24(v))[0], le24(clamp24(v))[1], le24(clamp24(v))[2]]) == clamp24(v),
{
    let c = clamp24(v);
    let u = c % 16777216;
    assert(0 <= u < 16777216);
    assert(u == if c < 0 { c + 16777216 } else { c });
    let b0 = u % 256;
    let b1 = (u / 256) % 256;
    let b2 = u / 65536;
    assert(b0 + 256 * b1 + 65536 * b2 == u) by (nonlinear_arith)
        requires
            0 <= u < 16777216,
            b0 == u % 256,
            b1 == (u / 256) % 256,
            b2 == u / 65536,
    {
        assert(u == b0 + 256 * (u / 256));
        assert(u / 256 == b1 + 256 * (u / 65536));
    }
    assert(0 <= b2 < 256) by (nonlinear_arith)
        requires
            0 <= u < 16777216,
            b2 == u / 65536,
    ;
    let s = le24(c);
    assert(s[0] as int == b0);
    assert(s[1] as int == b1);
    assert(s[2] as int == b2);
}

/// The first rotation byte: the index of the dropped largest component in
/// the top two bits, the first kept component's 6-bit code below.
pub open spec fn quat_head(idx: u8, q0: u8) -> u8 {
    (idx * 64 + q0 % 64) as u8
}

/// Packs the dropped-component index and the 6-bit code of the first kept
/// component into one byte.
pub fn pack_quat_head(idx: u8, q0: u8) -> (r: u8)
    requires
        idx < 4,
    ensures
        r == quat_head(idx, q0),
{
    idx * 64 + q0 % 64
}

/// Splits the first rotation byte into the dropped-component index and the
/// 6-bit code of the first kept component.
pub fn unpack_quat_head(b: u8) -> (r: (u8, u8))
    ensures
        r.0 == b / 64,
        r.1 == b % 64,
        r.0 < 4,
        quat_head(r.0, r.1) == b,
{
    (b / 64, b % 64)
}

/// Unpacking a packed rotation head gives the index and the low 6 bits of
/// the code back.
pub proof fn lemma_quat_head_roundtrip(idx: u8, q0: u8)
    requires
        idx < 4,
    ensures
        quat_head(idx, q0) / 64 == idx,
        quat_head(idx, q0) % 64 == q0 % 64,
{
}

/// Reads an SPZ file down to its payload sections: the framing, the
/// inflated payload, and its split for the header's splat count and degree.
pub fn read_spz_bytes(bytes: &[u8]) -> (r: Result<(SpzHeader, SpzSections), SpzError>)
    ensures
        spz_frame(bytes@) is Truncated ==> r == Err::<(SpzHeader, SpzSections), SpzError>(SpzError::Truncated),
        spz_frame(bytes@) is BadMagic ==> r == Err::<(SpzHeader, SpzSections), SpzError>(SpzError::BadMagic),
        spz_frame(bytes@) matches SpzFrame::UnsupportedVersion(v)
            ==> r == Err::<(SpzHeader, SpzSections), SpzError>(SpzError::UnsupportedVersion(v)),
        spz_frame(bytes@) matches SpzFrame::Framed(h, z) ==> match zlib_inflate(z) {
            None => r is Err && r->Err_0 is Decompress,
            Some(p) => if p.len() < payload_len(h.splat_count as nat, h.sh_degree) {
                r == Err::<(SpzHeader, SpzSections), SpzError>(SpzError::Truncated)
            } else {
                r matches Ok((rh, s)) && rh == h && splits_into(s, p, h.splat_count as int, h.sh_degree)
            },
        },
{
    let (h, payload) = read_spz_frame(bytes)?;
    let sections = split_payload(payload.as_slice(), h.splat_count as usize, h.sh_degree)?;
    Ok((h, sections))
}

/// Reading an encoded SPZ file gives back its header and its sections.
pub proof fn lemma_spz_roundtrip(h: SpzHeader, s: SpzSections, z: Seq<u8>)
    requires
        sections_fit(s, h.splat_count as nat, h.sh_degree),
        zlib_inflate(z) == Some(sections_bytes(s)),
    ensures
        spz_frame(spz_header_bytes(h) + z) == SpzFrame::Framed(h, z),
        sections_bytes(s).len() == payload_len(h.splat_count as nat, h.sh_degree),
        splits_into(s, sections_bytes(s), h.splat_count as int, h.sh_degree),
{
    lemma_spz_frame_roundtrip(h, z);
    lemma_sections_roundtrip(s, h.splat_count as nat, h.sh_degree);
}


/// Where each splat's fields sit in an SPZ payload of `n` splats: splat
/// `i`'s position is bytes `[9i, 9i+9)`, its scale bytes `[9n+3i, 9n+3i+3)`,
/// its rotation bytes `[12n+3i, 12n+3i+3)`, its alpha byte `15n+i` and its
/// color bytes `[16n+3i, 16n+3i+3)`. Splitting a payload reads each field
/// from there.
pub proof fn lemma_split_reads_splat_fields(s: SpzSections, payload: Seq<u8>, n: nat, sh: u8, i: int)
    requires
        splits_into(s, payload, n as int, sh),
        payload.len() >= payload_len(n, sh),
        0 <= i < n,
    ensures
        s.positions@.subrange(9 * i, 9 * i + 9) == payload.subrange(9 * i, 9 * i + 9),
        s.scales@.subrange(3 * i, 3 * i + 3) == payload.subrange(9 * n + 3 * i, 9 * n + 3 * i + 3),
        s.rotations@.subrange(3 * i, 3 * i + 3) == payload.subrange(12 * n + 3 * i, 12 * n + 3 * i + 3),
        s.alphas@[i] == payload[15 * n + i],
        s.colors@.subrange(3 * i, 3 * i + 3) == payload.subrange(16 * n + 3 * i, 16 * n + 3 * i + 3),
{
    let n = n as int;
    assert(s.positions@.subrange(9 * i, 9 * i + 9) =~= payload.subrange(9 * i, 9 * i + 9));
    assert(s.scales@.subrange(3 * i, 3 * i + 3) =~= payload.subrange(9 * n + 3 * i, 9 * n + 3 * i + 3));
    assert(s.rotations@.subrange(3 * i, 3 * i + 3) =~= payload.subrange(12 * n + 3 * i, 12 * n + 3 * i + 3));
    assert(s.colors@.subrange(3 * i, 3 * i + 3) =~= payload.subrange(16 * n + 3 * i, 16 * n + 3 * i + 3));
}

/// Joining sections of `n` splats writes splat `i`'s fields where a
/// reader finds them: position at `[9i, 9i+9)`, scale at `[9n+3i, 9n+3i+3)`,
/// rotation at `[12n+3i, 12n+3i+3)`, alpha at `15n+i`, color at
/// `[16n+3i, 16n+3i+3)`.
pub proof fn lemma_join_writes_splat_fields(s: SpzSections, n: nat, sh: u8, i: int)
    requires
        sections_fit(s, n, sh),
        0 <= i < n,
    ensures
        sections_bytes(s).subrange(9 * i, 9 * i + 9) == s.positions@.subrange(9 * i, 9 * i + 9),
        sections_bytes(s).subrange(9 * n + 3 * i, 9 * n + 3 * i + 3) == s.scales@.subrange(3 * i, 3 * i + 3),
        sections_bytes(s).subrange(12 * n + 3 * i, 12 * n + 3 * i + 3) == s.rotations@.subrange(3 * i, 3 * i + 3),
        sections_bytes(s)[15 * n + i] == s.alphas@[i],
        sections_bytes(s).subrange(16 * n + 3 * i, 16 * n + 3 * i + 3) == s.colors@.subrange(3 * i, 3 * i + 3),
{
    let b = sections_bytes(s);
    let n = n as int;
    assert(b.subrange(9 * i, 9 * i + 9) =~= s.positions@.subrange(9 * i, 9 * i + 9));
    assert(b.subrange(9 * n + 3 * i, 9 * n + 3 * i + 3) =~= s.scales@.subrange(3 * i, 3 * i + 3));
    assert(b.subrange(12 * n + 3 * i, 12 * n + 3 * i + 3) =~= s.rotations@.subrange(3 * i, 3 * i + 3));
    assert(b.subrange(16 * n + 3 * i, 16 * n + 3 * i + 3) =~= s.colors@.subrange(3 * i, 3 * i + 3));
}
} // verus!
