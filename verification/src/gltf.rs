//! glTF 2.0 / GLB container framing for `KHR_gaussian_splatting` scenes:
//! alignment of buffer views, the binary GLB wrapper (header, JSON chunk,
//! BIN chunk) and its reader.
use vstd::prelude::*;
use vstd::string::*;
use vstd::utf8::*;
use crate::bytes::{le_u32, u32_le, read_u32_le as read_le32, push_u32_le, push_all, copy_range, lemma_u32_le_roundtrip};
use crate::text::{utf8_str, str_chars, lit, append_str, push_decimal, decimal};
use crate::khr::{trim_pad_end, glb_magic};
use crate::ir::{blake3_tagged, blake3_label, SplatBits, ColorBits};
use crate::bytes::{words_le, push_words};
use crate::text::{str_eq, contains_str, strs_view};
use crate::json::{JsonValue, json_parse, parse_json, member, as_u64, as_str, array_member, string_elems, opt_ref, get_member, get_u64, get_string, get_array, get_first, string_members};
use crate::khr::{first_primitive, opt_str};

verus! {

/// Variants of the `KHR_gaussian_splatting_compression_spz` extension the
/// writer can emit.
#[derive(Debug, Clone, Copy, PartialEq, Eq, Structural)]
pub enum SpzVariant {
    /// SPZ v2.
    V2,
}

impl SpzVariant {
    /// Integer carried in the extension's `version` field.
    pub fn version(self) -> (r: u32)
        ensures
            self == SpzVariant::V2 ==> r == 2,
    {
        match self {
            SpzVariant::V2 => 2,
        }
    }
}

/// glTF I/O errors.
#[derive(Debug)]
pub enum GltfError {
    /// Underlying IO failed.
    Io(String),
    /// JSON could not be parsed.
    Json(String),
    /// The required `KHR_gaussian_splatting` extension was absent.
    MissingExtension,
    /// One of the chunks failed its checksum.
    ChecksumMismatch(usize),
    /// An external buffer file could not be loaded.
    BufferNotFound(String),
    /// Asset declared an unsupported extension version.
    UnsupportedVersion(String),
    /// Generic shape error.
    Malformed(String),
    /// Chunked output is not supported for GLB containers.
    GlbChunkedUnsupported,
    /// SPZ encode/decode failed.
    Spz(String),
}

/// Result of inspecting a glTF file.
#[derive(Debug, Clone, Copy, PartialEq, Eq, Structural)]
pub struct InspectReport {
    /// Whether `KHR_gaussian_splatting` is declared.
    pub has_khr: bool,
    /// Whether the `SF_spatial_streaming_index` extension is present.
    pub has_spatial_index: bool,
    /// Number of chunk entries, when the streaming-index extension is present.
    pub chunk_count: usize,
    /// Per-chunk checksum validation outcome.
    pub checksum_ok: bool,
    /// Splat count reported by the asset.
    pub splat_count: usize,
}

/// `dir.join("scene.gltf")` for a `/`-separated directory path.
pub open spec fn gltf_path_in(dir: Seq<char>) -> Seq<char> {
    if dir.len() == 0 || dir.last() == '/' {
        dir + "scene.gltf"@
    } else {
        dir + "/scene.gltf"@
    }
}

/// The `scene.gltf` path inside a directory.
pub fn default_gltf_path(dir: &str) -> (r: String)
    ensures
        r@ == gltf_path_in(dir@),
{
    let cs = str_chars(dir);
    let mut out = lit(dir);
    if cs.len() == 0 || cs[cs.len() - 1] == '/' {
        append_str(&mut out, "scene.gltf");
    } else {
        append_str(&mut out, "/scene.gltf");
    }
    out
}

/// Serialisation filter for boolean flags that are only written when set.
pub fn is_false(b: &bool) -> (r: bool)
    ensures
        r == !*b,
{
    !*b
}

/// Per-chunk attribute plan: whether any attribute is integer-quantized,
/// which decides byte alignment and the `KHR_mesh_quantization` declaration.
#[derive(Debug, Clone, Copy, PartialEq, Eq)]
pub struct QuantizeLayout {
    pub enabled: bool,
}

impl QuantizeLayout {
    /// Every attribute stays FLOAT.
    pub fn float_only() -> (r: Self)
        ensures
            !r.enabled,
    {
        QuantizeLayout { enabled: false }
    }

    /// Attributes are integer-quantized.
    pub fn quantized() -> (r: Self)
        ensures
            r.enabled,
    {
        QuantizeLayout { enabled: true }
    }
}

/// `x` rounded up to the next multiple of `align`.
pub open spec fn round_up(x: int, align: int) -> int {
    ((x + align - 1) / align) * align
}

/// Rounds `x` up to the next multiple of `align`, a power of two.
pub fn align_up(x: usize, align: usize) -> (r: usize)
    requires
        align > 0,
        align & ((align - 1) as usize) == 0,
        x + align - 1 <= usize::MAX,
    ensures
        r == round_up(x as int, align as int),
        x <= r < x + align,
        r % align == 0,
{
    let y = x + (align - 1);
    proof {
        vstd::arithmetic::div_mod::lemma_fundamental_div_mod(y as int, align as int);
        vstd::arithmetic::mul::lemma_mul_is_commutative((y / align) as int, align as int);
        vstd::arithmetic::div_mod::lemma_mod_multiples_basic((y / align) as int, align as int);
        assert((y / align) * align <= y);
    }
    let r = (y / align) * align;
    r
}

/// Pads `buf` with zero bytes up to the next multiple of `align`.
pub fn pad_to(buf: &mut Vec<u8>, align: usize)
    requires
        align > 0,
        align & ((align - 1) as usize) == 0,
        old(buf)@.len() + align - 1 <= usize::MAX,
    ensures
        final(buf)@.len() == round_up(old(buf)@.len() as int, align as int),
        final(buf)@.subrange(0, old(buf)@.len() as int) == old(buf)@,
        forall|i: int| old(buf)@.len() <= i < final(buf)@.len() ==> #[trigger] final(buf)@[i] == 0,
{
    let target = align_up(buf.len(), align);
    while buf.len() < target
        invariant
            old(buf)@.len() <= buf@.len() <= target,
            buf@.subrange(0, old(buf)@.len() as int) == old(buf)@,
            forall|i: int| old(buf)@.len() <= i < buf@.len() ==> #[trigger] buf@[i] == 0,
        decreases target - buf@.len(),
    {
        buf.push(0u8);
        assert(buf@.subrange(0, old(buf)@.len() as int) =~= old(buf)@);
    }
}

/// `b` followed by copies of `pad` up to a length that is a multiple of 4.
pub open spec fn padded4(b: Seq<u8>, pad: u8) -> Seq<u8> {
    b + Seq::new((round_up(b.len() as int, 4) - b.len()) as nat, |i: int| pad)
}

/// Appends `pad_byte` until the length is a multiple of 4.
pub fn pad_to_4(buf: &mut Vec<u8>, pad_byte: u8)
    requires
        old(buf)@.len() + 3 <= usize::MAX,
    ensures
        final(buf)@ == padded4(old(buf)@, pad_byte),
{
    let ghost target = round_up(old(buf)@.len() as int, 4);
    proof {
        vstd::arithmetic::div_mod::lemma_fundamental_div_mod(old(buf)@.len() as int + 3, 4);
    }
    while buf.len() % 4 != 0
        invariant
            old(buf)@.len() <= buf@.len() <= target,
            target == round_up(old(buf)@.len() as int, 4),
            target % 4 == 0,
            target - old(buf)@.len() < 4,
            buf@ == old(buf)@ + Seq::new((buf@.len() - old(buf)@.len()) as nat, |i: int| pad_byte),
        decreases target - buf@.len(),
    {
        buf.push(pad_byte);
        assert(buf@ =~= old(buf)@ + Seq::new((buf@.len() - old(buf)@.len()) as nat, |i: int| pad_byte));
    }
    proof {
        assert(buf@.len() == target);
    }
}

/// The little-endian `u32` at `offset`, or an error when the bytes run out.
pub fn read_u32_le(bytes: &[u8], offset: usize) -> (r: Result<u32, GltfError>)
    ensures
        offset + 4 <= bytes@.len() ==> r == Ok::<u32, GltfError>(le_u32(bytes@, offset as int) as u32),
        offset + 4 > bytes@.len() ==> (r matches Err(GltfError::Malformed(m)) && m@
            == "truncated GLB header"@),
{
    if bytes.len() < 4 || offset > bytes.len() - 4 {
        return Err(GltfError::Malformed(lit("truncated GLB header")));
    }
    Ok(read_le32(bytes, offset))
}

// ---------- GLB container ----------

/// The GLB magic `glTF`, as a little-endian word.
pub const GLB_MAGIC: u32 = 0x4654_6C67;
/// Chunk type of the JSON chunk (`JSON`).
pub const GLB_JSON: u32 = 0x4E4F_534A;
/// Chunk type of the binary chunk (`BIN\0`).
pub const GLB_BIN: u32 = 0x004E_4942;

/// The bytes of a GLB holding `json` and `bin`: the JSON chunk padded with
/// spaces and the BIN chunk padded with zeros to multiples of four, every
/// length field stored modulo 2^32.
pub open spec fn glb_bytes(json: Seq<u8>, bin: Seq<u8>) -> Seq<u8> {
    let j = padded4(json, 0x20u8);
    let b = padded4(bin, 0u8);
    let total = 28 + j.len() + b.len();
    u32_le(GLB_MAGIC) + u32_le(2) + u32_le((total % 0x1_0000_0000) as u32) + u32_le(
        (j.len() % 0x1_0000_0000) as u32,
    ) + u32_le(GLB_JSON) + j + u32_le((b.len() % 0x1_0000_0000) as u32) + u32_le(GLB_BIN) + b
}

/// Wraps a JSON document and a binary payload into a GLB container.
pub fn pack_glb(json: &[u8], bin: &[u8]) -> (r: Vec<u8>)
    requires
        json@.len() + bin@.len() + 34 <= usize::MAX,
    ensures
        r@ == glb_bytes(json@, bin@),
{
    let mut j: Vec<u8> = Vec::new();
    push_all(&mut j, json);
    pad_to_4(&mut j, 0x20u8);
    let mut b: Vec<u8> = Vec::new();
    push_all(&mut b, bin);
    pad_to_4(&mut b, 0u8);
    assert(j@ == padded4(json@, 0x20u8) && b@ == padded4(bin@, 0u8)) by {
        assert(Seq::<u8>::empty() + json@ == json@);
        assert(Seq::<u8>::empty() + bin@ == bin@);
    }
    let total: u64 = 28u64 + (j.len() as u64) + (b.len() as u64);
    let mut out: Vec<u8> = Vec::new();
    push_u32_le(&mut out, GLB_MAGIC);
    push_u32_le(&mut out, 2);
    push_u32_le(&mut out, (total % 0x1_0000_0000u64) as u32);
    push_u32_le(&mut out, ((j.len() as u64) % 0x1_0000_0000u64) as u32);
    push_u32_le(&mut out, GLB_JSON);
    push_all(&mut out, j.as_slice());
    push_u32_le(&mut out, ((b.len() as u64) % 0x1_0000_0000u64) as u32);
    push_u32_le(&mut out, GLB_BIN);
    push_all(&mut out, b.as_slice());
    reveal(glb_bytes);
    assert(out@ =~= glb_bytes(json@, bin@));
    out
}

/// Walks the GLB chunks of `b[..total]` from byte `off`, remembering the
/// byte range of the last JSON chunk and of the last BIN chunk.
pub open spec fn glb_walk(
    b: Seq<u8>,
    total: int,
    off: int,
    json: Option<(int, int)>,
    bin: Option<(int, int)>,
) -> Result<(Option<(int, int)>, Option<(int, int)>), Seq<char>>
    decreases total - off,
{
    if off < 0 || off + 8 > total {
        Ok((json, bin))
    } else {
        let start = off + 8;
        let end = start + le_u32(b, off);
        let ty = le_u32(b, off + 4);
        if end > usize::MAX {
            Err("chunk length overflow"@)
        } else if end > total {
            Err("chunk exceeds GLB length"@)
        } else if ty == GLB_JSON {
            glb_walk(b, total, end, Some((start, end)), bin)
        } else if ty == GLB_BIN {
            glb_walk(b, total, end, json, Some((start, end)))
        } else {
            glb_walk(b, total, end, json, bin)
        }
    }
}

/// The JSON text and the BIN payload of a GLB, or why it is malformed.
pub open spec fn glb_read(b: Seq<u8>) -> Result<(Seq<char>, Seq<u8>), Seq<char>> {
    if b.len() < 12 {
        Err("file too small for GLB"@)
    } else if le_u32(b, 0) != GLB_MAGIC {
        Err("bad GLB magic"@)
    } else if le_u32(b, 4) != 2 {
        Err("unsupported GLB version "@ + decimal(le_u32(b, 4)))
    } else if b.len() < le_u32(b, 8) {
        Err("GLB length exceeds buffer"@)
    } else {
        match glb_walk(b, le_u32(b, 8) as int, 12, None, None) {
            Err(m) => Err(m),
            Ok((None, _)) => Err("missing JSON chunk"@),
            Ok((Some(_), None)) => Err("missing BIN chunk"@),
            Ok((Some((js, je)), Some((bs, be)))) => {
                let text = b.subrange(js, trim_pad_end(b, js, je));
                if valid_utf8(text) {
                    Ok((decode_utf8(text), b.subrange(bs, be)))
                } else {
                    Err("JSON chunk not UTF-8"@)
                }
            },
        }
    }
}

fn malformed(m: &str) -> (e: GltfError)
    ensures
        e matches GltfError::Malformed(x) && x@ == m@,
{
    GltfError::Malformed(lit(m))
}

/// Reads the GLB framing: header, chunk walk, and the JSON chunk's text
/// (without its trailing padding) with the BIN chunk's bytes.
pub fn read_glb_chunks(bytes: &[u8]) -> (r: Result<(String, Vec<u8>), GltfError>)
    ensures
        match glb_read(bytes@) {
            Ok((text, bin)) => r matches Ok((t, v)) && t@ == text && v@ == bin,
            Err(m) => r matches Err(GltfError::Malformed(x)) && x@ == m,
        },
{
    if bytes.len() < 12 {
        return Err(malformed("file too small for GLB"));
    }
    let magic = read_le32(bytes, 0);
    if magic != GLB_MAGIC {
        return Err(malformed("bad GLB magic"));
    }
    let version = read_le32(bytes, 4);
    if version != 2 {
        let mut m = lit("unsupported GLB version ");
        push_decimal(&mut m, version as u64);
        return Err(GltfError::Malformed(m));
    }
    let total32 = read_le32(bytes, 8);
    if (bytes.len() as u64) < (total32 as u64) {
        return Err(malformed("GLB length exceeds buffer"));
    }
    let total = total32 as usize;
    let ghost b = bytes@;
    let mut offset: usize = 12;
    let mut json: Option<(usize, usize)> = None;
    let mut bin: Option<(usize, usize)> = None;
    while offset <= total && total - offset >= 8
        invariant
            b == bytes@,
            b.len() >= 12,
            le_u32(b, 0) == GLB_MAGIC,
            le_u32(b, 4) == 2,
            total <= b.len(),
            total == le_u32(b, 8),
            12 <= offset,
            offset <= total || offset == 12,
            json matches Some((s, e)) ==> s <= e <= total,
            bin matches Some((s, e)) ==> s <= e <= total,
            glb_walk(b, total as int, 12, None, None) == glb_walk(
                b,
                total as int,
                offset as int,
                match json {
                    Some((s, e)) => Some((s as int, e as int)),
                    None => None,
                },
                match bin {
                    Some((s, e)) => Some((s as int, e as int)),
                    None => None,
                },
            ),
        decreases total - offset,
    {
        let chunk_len = read_le32(bytes, offset);
        let chunk_ty = read_le32(bytes, offset + 4);
        let data_start = offset + 8;
        let data_end = match data_start.checked_add(chunk_len as usize) {
            Some(x) => x,
            None => {
                return Err(malformed("chunk length overflow"));
            },
        };
        if data_end > total {
            return Err(malformed("chunk exceeds GLB length"));
        }
        if chunk_ty == GLB_JSON {
            json = Some((data_start, data_end));
        } else if chunk_ty == GLB_BIN {
            bin = Some((data_start, data_end));
        }
        offset = data_end;
    }
    let (js, je) = match json {
        Some(x) => x,
        None => {
            return Err(malformed("missing JSON chunk"));
        },
    };
    let (bs, be) = match bin {
        Some(x) => x,
        None => {
            return Err(malformed("missing BIN chunk"));
        },
    };
    let mut end = je;
    while end > js && (bytes[end - 1] == 0x20u8 || bytes[end - 1] == 0u8)
        invariant
            b == bytes@,
            js <= end <= je <= b.len(),
            trim_pad_end(b, js as int, end as int) == trim_pad_end(b, js as int, je as int),
        decreases end,
    {
        end -= 1;
    }
    match utf8_str(&bytes[js..end]) {
        None => Err(malformed("JSON chunk not UTF-8")),
        Some(s) => {
            proof {
                vstd::utf8::encode_utf8_decode_utf8(s@);
            }
            let payload = copy_range(bytes, bs, be);
            Ok((lit(s), payload))
        },
    }
}

// ---------- reading back a written GLB ----------

proof fn lemma_trim_shift(x: Seq<u8>, m: Seq<u8>, y: Seq<u8>, a: int, c: int)
    requires
        0 <= a <= c <= m.len(),
    ensures
        trim_pad_end(x + m + y, x.len() + a, x.len() + c) == x.len() + trim_pad_end(m, a, c),
    decreases c - a,
{
    let b = x + m + y;
    if c > a {
        assert(b[x.len() + c - 1] == m[c - 1]);
        lemma_trim_shift(x, m, y, a, c - 1);
    }
}

proof fn lemma_trim_agree(p: Seq<u8>, q: Seq<u8>, c: int)
    requires
        0 <= c <= p.len(),
        c <= q.len(),
        forall|i: int| 0 <= i < c ==> p[i] == q[i],
    ensures
        trim_pad_end(p, 0, c) == trim_pad_end(q, 0, c),
    decreases c,
{
    if c > 0 {
        lemma_trim_agree(p, q, c - 1);
    }
}

proof fn lemma_trim_padding(j: Seq<u8>, c: int)
    requires
        j.len() <= c <= padded4(j, 0x20u8).len(),
    ensures
        trim_pad_end(padded4(j, 0x20u8), 0, c) == trim_pad_end(j, 0, j.len() as int),
    decreases c,
{
    let jp = padded4(j, 0x20u8);
    if c > j.len() {
        assert(jp[c - 1] == 0x20u8);
        lemma_trim_padding(j, c - 1);
    } else {
        lemma_trim_agree(jp, j, c);
    }
}

proof fn lemma_trim_stops_on_pad(b: Seq<u8>, s: int, e: int)
    requires
        s <= e,
    ensures
        s <= trim_pad_end(b, s, e) <= e,
        trim_pad_end(b, s, e) < e ==> (b[trim_pad_end(b, s, e)] == 0x20u8 || b[trim_pad_end(b, s, e)] == 0u8),
    decreases e - s,
{
    if e > s && (b[e - 1] == 32u8 || b[e - 1] == 0u8) {
        lemma_trim_stops_on_pad(b, s, e - 1);
    }
}

proof fn lemma_trimmed_valid(j: Seq<u8>)
    requires
        valid_utf8(j),
    ensures
        valid_utf8(j.subrange(0, trim_pad_end(j, 0, j.len() as int))),
{
    let t = trim_pad_end(j, 0, j.len() as int);
    lemma_trim_stops_on_pad(j, 0, j.len() as int);
    if t < j.len() {
        vstd::utf8::is_char_boundary_iff_not_is_continuation_byte(j, t);
        vstd::utf8::valid_utf8_split(j, t);
    } else {
        assert(j.subrange(0, t) =~= j);
    }
}

proof fn lemma_padded4_len(b: Seq<u8>, pad: u8)
    ensures
        padded4(b, pad).len() == round_up(b.len() as int, 4),
        b.len() <= padded4(b, pad).len() < b.len() + 4,
        padded4(b, pad).len() % 4 == 0,
{
    vstd::arithmetic::div_mod::lemma_fundamental_div_mod(b.len() as int + 3, 4);
}

proof fn lemma_regroup_glb(
    w0: Seq<u8>,
    w1: Seq<u8>,
    w2: Seq<u8>,
    w3: Seq<u8>,
    w4: Seq<u8>,
    jp: Seq<u8>,
    w5: Seq<u8>,
    w6: Seq<u8>,
    bp: Seq<u8>,
)
    ensures
        ({
            let bb = w0 + w1 + w2 + w3 + w4 + jp + w5 + w6 + bp;
            &&& bb == Seq::<u8>::empty() + w0 + (w1 + w2 + w3 + w4 + jp + w5 + w6 + bp)
            &&& bb == w0 + w1 + (w2 + w3 + w4 + jp + w5 + w6 + bp)
            &&& bb == (w0 + w1) + w2 + (w3 + w4 + jp + w5 + w6 + bp)
            &&& bb == (w0 + w1 + w2) + w3 + (w4 + jp + w5 + w6 + bp)
            &&& bb == (w0 + w1 + w2 + w3) + w4 + (jp + w5 + w6 + bp)
            &&& bb == (w0 + w1 + w2 + w3 + w4 + jp) + w5 + (w6 + bp)
            &&& bb == (w0 + w1 + w2 + w3 + w4 + jp + w5) + w6 + bp
            &&& bb == (w0 + w1 + w2 + w3 + w4) + jp + (w5 + w6 + bp)
            &&& bb == (w0 + w1 + w2 + w3 + w4 + jp + w5 + w6) + bp + Seq::<u8>::empty()
        }),
{
    let bb = w0 + w1 + w2 + w3 + w4 + jp + w5 + w6 + bp;
    let e = Seq::<u8>::empty();
    assert(bb =~= e + w0 + (w1 + w2 + w3 + w4 + jp + w5 + w6 + bp));
    assert(bb =~= w0 + w1 + (w2 + w3 + w4 + jp + w5 + w6 + bp));
    assert(bb =~= (w0 + w1) + w2 + (w3 + w4 + jp + w5 + w6 + bp));
    assert(bb =~= (w0 + w1 + w2) + w3 + (w4 + jp + w5 + w6 + bp));
    assert(bb =~= (w0 + w1 + w2 + w3) + w4 + (jp + w5 + w6 + bp));
    assert(bb =~= (w0 + w1 + w2 + w3 + w4 + jp) + w5 + (w6 + bp));
    assert(bb =~= (w0 + w1 + w2 + w3 + w4 + jp + w5) + w6 + bp);
    assert(bb =~= (w0 + w1 + w2 + w3 + w4) + jp + (w5 + w6 + bp));
    assert(bb =~= (w0 + w1 + w2 + w3 + w4 + jp + w5 + w6) + bp + e);
}

proof fn lemma_mid(x: Seq<u8>, m: Seq<u8>, y: Seq<u8>)
    ensures
        (x + m + y).subrange(x.len() as int, x.len() + m.len() as int) == m,
{
    assert((x + m + y).subrange(x.len() as int, x.len() + m.len() as int) =~= m);
}

#[verifier::spinoff_prover]
#[verifier::rlimit(60)]
proof fn lemma_glb_layout(v2: u32, v3: u32, v5: u32, jp: Seq<u8>, bp: Seq<u8>)
    requires
        v3 == jp.len(),
        v5 == bp.len(),
    ensures
        ({
            let bb = u32_le(GLB_MAGIC) + u32_le(2) + u32_le(v2) + u32_le(v3) + u32_le(GLB_JSON) + jp
                + u32_le(v5) + u32_le(GLB_BIN) + bp;
            let jl = jp.len() as int;
            &&& bb.len() == 28 + jp.len() + bp.len()
            &&& le_u32(bb, 0) == GLB_MAGIC
            &&& le_u32(bb, 4) == 2
            &&& le_u32(bb, 8) == v2
            &&& le_u32(bb, 12) == v3
            &&& le_u32(bb, 16) == GLB_JSON
            &&& le_u32(bb, 20 + jl) == v5
            &&& le_u32(bb, 24 + jl) == GLB_BIN
            &&& bb.subrange(20, 20 + jl) == jp
            &&& bb.subrange(28 + jl, bb.len() as int) == bp
            &&& trim_pad_end(bb, 20, 20 + jl) == 20 + trim_pad_end(jp, 0, jl)
        }),
{
    let w0 = u32_le(GLB_MAGIC);
    let w1 = u32_le(2);
    let w2 = u32_le(v2);
    let w3 = u32_le(v3);
    let w4 = u32_le(GLB_JSON);
    let w5 = u32_le(v5);
    let w6 = u32_le(GLB_BIN);
    let e = Seq::<u8>::empty();
    lemma_regroup_glb(w0, w1, w2, w3, w4, jp, w5, w6, bp);
    lemma_u32_le_roundtrip(GLB_MAGIC, e, w1 + w2 + w3 + w4 + jp + w5 + w6 + bp);
    lemma_u32_le_roundtrip(2, w0, w2 + w3 + w4 + jp + w5 + w6 + bp);
    lemma_u32_le_roundtrip(v2, w0 + w1, w3 + w4 + jp + w5 + w6 + bp);
    lemma_u32_le_roundtrip(v3, w0 + w1 + w2, w4 + jp + w5 + w6 + bp);
    lemma_u32_le_roundtrip(GLB_JSON, w0 + w1 + w2 + w3, jp + w5 + w6 + bp);
    lemma_u32_le_roundtrip(v5, w0 + w1 + w2 + w3 + w4 + jp, w6 + bp);
    lemma_u32_le_roundtrip(GLB_BIN, w0 + w1 + w2 + w3 + w4 + jp + w5, bp);
    lemma_mid(w0 + w1 + w2 + w3 + w4, jp, w5 + w6 + bp);
    lemma_mid(w0 + w1 + w2 + w3 + w4 + jp + w5 + w6, bp, e);
    lemma_trim_shift(w0 + w1 + w2 + w3 + w4, jp, w5 + w6 + bp, 0, jp.len() as int);
}

proof fn lemma_glb_walk_two(bb: Seq<u8>, jl: int, bl: int)
    requires
        0 <= jl,
        0 <= bl,
        28 + jl + bl < 0x1_0000_0000,
        le_u32(bb, 12) == jl,
        le_u32(bb, 16) == GLB_JSON,
        le_u32(bb, 20 + jl) == bl,
        le_u32(bb, 24 + jl) == GLB_BIN,
    ensures
        glb_walk(bb, 28 + jl + bl, 12, None, None) == Ok::<
            (Option<(int, int)>, Option<(int, int)>),
            Seq<char>,
        >((Some((20, 20 + jl)), Some((28 + jl, 28 + jl + bl)))),
{
    let total = 28 + jl + bl;
    assert(glb_walk(bb, total, total, Some((20, 20 + jl)), Some((28 + jl, total))) == Ok::<
        (Option<(int, int)>, Option<(int, int)>),
        Seq<char>,
    >((Some((20, 20 + jl)), Some((28 + jl, total)))));
    assert(glb_walk(bb, total, 20 + jl, Some((20, 20 + jl)), None) == glb_walk(
        bb,
        total,
        total,
        Some((20, 20 + jl)),
        Some((28 + jl, total)),
    ));
}

proof fn lemma_glb_bytes_unfold(json: Seq<u8>, bin: Seq<u8>, t32: u32, j32: u32, b32: u32)
    requires
        t32 == 28 + padded4(json, 0x20u8).len() + padded4(bin, 0u8).len(),
        j32 == padded4(json, 0x20u8).len(),
        b32 == padded4(bin, 0u8).len(),
    ensures
        glb_bytes(json, bin) == u32_le(GLB_MAGIC) + u32_le(2) + u32_le(t32) + u32_le(j32) + u32_le(
            GLB_JSON,
        ) + padded4(json, 0x20u8) + u32_le(b32) + u32_le(GLB_BIN) + padded4(bin, 0u8),
{
    reveal(glb_bytes);
    let j = padded4(json, 0x20u8);
    let b = padded4(bin, 0u8);
    let total = 28 + j.len() + b.len();
    assert((total % 0x1_0000_0000) as u32 == t32);
    assert((j.len() % 0x1_0000_0000) as u32 == j32);
    assert((b.len() % 0x1_0000_0000) as u32 == b32);
}

proof fn lemma_glb_frame(json: Seq<u8>, bin: Seq<u8>)
    requires
        28 + round_up(json.len() as int, 4) + round_up(bin.len() as int, 4) < 0x1_0000_0000,
    ensures
        ({
            let bb = glb_bytes(json, bin);
            let jp = padded4(json, 0x20u8);
            let jl = jp.len() as int;
            let bl = padded4(bin, 0u8).len() as int;
            &&& bb.len() == 28 + jl + bl
            &&& le_u32(bb, 0) == GLB_MAGIC
            &&& le_u32(bb, 4) == 2
            &&& le_u32(bb, 8) == 28 + jl + bl
            &&& le_u32(bb, 12) == jl
            &&& le_u32(bb, 16) == GLB_JSON
            &&& le_u32(bb, 20 + jl) == bl
            &&& le_u32(bb, 24 + jl) == GLB_BIN
            &&& bb.subrange(20, 20 + jl) == jp
            &&& bb.subrange(28 + jl, 28 + jl + bl) == padded4(bin, 0u8)
            &&& trim_pad_end(bb, 20, 20 + jl) == 20 + trim_pad_end(jp, 0, jl)
        }),
{
    let jp = padded4(json, 0x20u8);
    let bp = padded4(bin, 0u8);
    lemma_padded4_len(json, 0x20u8);
    lemma_padded4_len(bin, 0u8);
    let jl = jp.len() as int;
    let bl = bp.len() as int;
    let total = 28 + jl + bl;
    let t32 = (total % 0x1_0000_0000) as u32;
    let j32 = (jl % 0x1_0000_0000) as u32;
    let b32 = (bl % 0x1_0000_0000) as u32;
    assert(t32 == total && j32 == jl && b32 == bl);
    lemma_glb_bytes_unfold(json, bin, t32, j32, b32);
    lemma_glb_layout(t32, j32, b32, jp, bp);
}

/// A GLB written by [`pack_glb`] reads back, through [`read_glb_chunks`],
/// as the same JSON text (without its trailing blanks) and the same BIN
/// payload padded to four bytes, whenever the JSON is UTF-8 and the file
/// length fits its 32-bit field.
pub proof fn lemma_glb_roundtrip(json: Seq<u8>, bin: Seq<u8>)
    requires
        valid_utf8(json),
        28 + round_up(json.len() as int, 4) + round_up(bin.len() as int, 4) < 0x1_0000_0000,
    ensures
        glb_read(glb_bytes(json, bin)) == Ok::<(Seq<char>, Seq<u8>), Seq<char>>(
            (decode_utf8(json.subrange(0, trim_pad_end(json, 0, json.len() as int))), padded4(bin, 0u8)),
        ),
{
    let jp = padded4(json, 0x20u8);
    lemma_padded4_len(json, 0x20u8);
    lemma_padded4_len(bin, 0u8);
    let jl = jp.len() as int;
    let bl = padded4(bin, 0u8).len() as int;
    let bb = glb_bytes(json, bin);
    lemma_glb_frame(json, bin);
    lemma_glb_walk_two(bb, jl, bl);
    lemma_trim_padding(json, jl);
    let t = trim_pad_end(json, 0, json.len() as int);
    lemma_trim_stops_on_pad(json, 0, json.len() as int);
    assert(bb.subrange(20, 20 + t) =~= json.subrange(0, t)) by {
        assert forall|i: int| 0 <= i < t implies bb.subrange(20, 20 + t)[i] == json.subrange(0, t)[i] by {
            assert(bb.subrange(20, 20 + jl)[i] == jp[i]);
        }
    }
    lemma_trimmed_valid(json);
}

// ---------- inspection ----------

/// Name of the core splat extension.
pub open spec fn khr_name() -> Seq<char> {
    "KHR_gaussian_splatting"@
}

/// Name of the spatial streaming index extension.
pub open spec fn sf_index_name() -> Seq<char> {
    "SF_spatial_streaming_index"@
}

/// One entry of the streaming index's chunk list; absent numbers read as
/// 0 and an absent checksum as the empty string.
#[derive(Debug, Clone)]
pub struct IndexChunk {
    /// Index of the buffer holding the chunk, when given as an integer.
    pub buffer: Option<u64>,
    /// Byte offset of the chunk in its buffer.
    pub byte_offset: u64,
    /// Byte length of the chunk.
    pub byte_length: u64,
    /// Expected `"blake3:<hex>"` checksum.
    pub checksum: String,
    /// Splats in the chunk.
    pub splat_count: u64,
}

/// The fields of a glTF document that inspection reads.
#[derive(Debug, Clone)]
pub struct InspectDoc {
    /// The string entries of `extensionsUsed`.
    pub extensions_used: Vec<String>,
    /// The `version` string of the core extension on the first primitive of
    /// the first mesh, when present.
    pub khr_version: Option<String>,
    /// The streaming index's chunk entries.
    pub chunks: Vec<IndexChunk>,
    /// The `uri` string of each buffer, when present.
    pub buffer_uris: Vec<Option<String>>,
    /// The `count` of the accessor named by the core extension's `_OPACITY`
    /// attribute on the first primitive, or 0 when there is none.
    pub opacity_count: u64,
}

/// The extensions an asset must declare, in order of checking: the core
/// extension (else `MissingExtension`), at version "1" when a version is
/// given (else `UnsupportedVersion`). Returns whether the streaming index is
/// declared.
pub fn inspect_extensions(doc: &InspectDoc) -> (r: Result<bool, GltfError>)
    ensures
        !seq_has(doc.extensions_used@, khr_name()) ==> r matches Err(GltfError::MissingExtension),
        seq_has(doc.extensions_used@, khr_name()) && (doc.khr_version matches Some(v) && v@ != "1"@) ==> (
        r matches Err(GltfError::UnsupportedVersion(m)) && Some(m@) == match doc.khr_version {
            Some(v) => Some(v@),
            None => None::<Seq<char>>,
        }),
        seq_has(doc.extensions_used@, khr_name()) && !(doc.khr_version matches Some(v) && v@ != "1"@) ==> r
            == Ok::<bool, GltfError>(seq_has(doc.extensions_used@, sf_index_name())),
{
    proof {
        reveal_strlit("KHR_gaussian_splatting");
        reveal_strlit("SF_spatial_streaming_index");
        reveal_strlit("1");
    }
    if !contains_str(&doc.extensions_used, "KHR_gaussian_splatting") {
        return Err(GltfError::MissingExtension);
    }
    match &doc.khr_version {
        Some(v) => {
            if !str_eq(v.as_str(), "1") {
                return Err(GltfError::UnsupportedVersion(lit(v.as_str())));
            }
        },
        None => {},
    }
    Ok(contains_str(&doc.extensions_used, "SF_spatial_streaming_index"))
}

/// Some entry of `items` reads `s`.
pub open spec fn seq_has(items: Seq<String>, s: Seq<char>) -> bool {
    exists|i: int| 0 <= i < items.len() && #[trigger] items[i]@ == s
}

/// `"chunk <i> references missing buffer"`.
pub open spec fn missing_buffer_message(i: nat) -> Seq<char> {
    "chunk "@ + decimal(i) + " references missing buffer"@
}

/// The URI of the buffer that chunk `i` lives in: `Malformed` when the
/// chunk names no buffer, names one past the list, or that buffer has no
/// URI.
pub fn chunk_buffer_uri(i: usize, chunk: &IndexChunk, buffer_uris: &Vec<Option<String>>) -> (r: Result<String, GltfError>)
    ensures
        chunk.buffer is None ==> (r matches Err(GltfError::Malformed(m)) && m@ == "chunk missing buffer"@),
        chunk.buffer matches Some(b) && (b as usize) >= buffer_uris@.len() ==> (r matches Err(GltfError::Malformed(m))
            && m@ == missing_buffer_message(i as nat)),
        chunk.buffer matches Some(b) && (b as usize) < buffer_uris@.len() ==> match buffer_uris@[chunk.buffer->Some_0 as usize as int] {
            None => r matches Err(GltfError::Malformed(m)) && m@ == "buffer has no uri"@,
            Some(u) => r matches Ok(s) && s@ == u@,
        },
{
    let b = match chunk.buffer {
        Some(b) => b,
        None => {
            return Err(GltfError::Malformed(lit("chunk missing buffer")));
        },
    };
    let idx = b as usize;
    if idx >= buffer_uris.len() {
        let mut m = lit("chunk ");
        push_decimal(&mut m, i as u64);
        append_str(&mut m, " references missing buffer");
        proof {
            reveal_strlit("chunk ");
            reveal_strlit(" references missing buffer");
        }
        return Err(GltfError::Malformed(m));
    }
    match &buffer_uris[idx] {
        Some(u) => Ok(lit(u.as_str())),
        None => Err(GltfError::Malformed(lit("buffer has no uri"))),
    }
}

/// Checks chunk `i` against the bytes of its buffer: the BLAKE3 label of
/// its byte range must equal its checksum (else `ChecksumMismatch(i)`).
/// Returns the chunk's splat count.
pub fn check_chunk_bytes(i: usize, chunk: &IndexChunk, data: &[u8]) -> (r: Result<usize, GltfError>)
    requires
        chunk.byte_offset as usize as int + chunk.byte_length as usize as int <= data@.len(),
    ensures
        ({
            let start = chunk.byte_offset as usize as int;
            let end = start + chunk.byte_length as usize as int;
            &&& blake3_label(data@.subrange(start, end)) == chunk.checksum@ ==> r == Ok::<usize, GltfError>(
                chunk.splat_count as usize,
            )
            &&& blake3_label(data@.subrange(start, end)) != chunk.checksum@ ==> (r matches Err(
                GltfError::ChecksumMismatch(j),
            ) && j == i)
        }),
{
    let start = chunk.byte_offset as usize;
    let len = chunk.byte_length as usize;
    let total = data.len();
    assert(start as int + len as int <= total);
    let end = start + len;
    let label = blake3_tagged(&data[start..end]);
    if str_eq(label.as_str(), chunk.checksum.as_str()) {
        Ok(chunk.splat_count as usize)
    } else {
        Err(GltfError::ChecksumMismatch(i))
    }
}

/// The report of an asset without a streaming index: its splat count is
/// the opacity accessor's count.
pub fn plain_inspect_report(doc: &InspectDoc) -> (r: InspectReport)
    ensures
        r == (InspectReport {
            has_khr: true,
            has_spatial_index: false,
            chunk_count: 0,
            checksum_ok: true,
            splat_count: doc.opacity_count as usize,
        }),
{
    InspectReport {
        has_khr: true,
        has_spatial_index: false,
        chunk_count: 0,
        checksum_ok: true,
        splat_count: doc.opacity_count as usize,
    }
}

// ---------- FLOAT chunk buffers ----------

/// The DC color of a splat (the first three SH coefficients).
pub open spec fn dc_words(c: ColorBits) -> Seq<u32> {
    match c {
        ColorBits::Rgb(a) => a@,
        ColorBits::Sh { coeffs, .. } => coeffs@.take(3),
    }
}

/// The 45 higher-order SH coefficients of a splat, zero-padded; all zero
/// for an RGB splat.
pub open spec fn sh_rest_words(c: ColorBits) -> Seq<u32> {
    Seq::new(
        45,
        |i: int|
            match c {
                ColorBits::Sh { coeffs, .. } => if i + 3 < coeffs@.len() {
                    coeffs@[i + 3]
                } else {
                    0u32
                },
                ColorBits::Rgb(_) => 0u32,
            },
    )
}

/// The words one splat contributes to attribute section `which`: position,
/// rotation, scale, opacity, DC color, higher-order SH.
pub open spec fn attr_words(s: SplatBits, which: int) -> Seq<u32> {
    if which == 0 {
        s.position@
    } else if which == 1 {
        s.rotation@
    } else if which == 2 {
        s.scale@
    } else if which == 3 {
        seq![s.opacity]
    } else if which == 4 {
        dc_words(s.color)
    } else {
        sh_rest_words(s.color)
    }
}

/// The bytes of attribute section `which` for all splats, in order.
pub open spec fn section_bytes(chunk: Seq<SplatBits>, which: int) -> Seq<u8>
    decreases chunk.len(),
{
    if chunk.len() == 0 {
        Seq::empty()
    } else {
        section_bytes(chunk.drop_last(), which) + words_le(attr_words(chunk.last(), which))
    }
}

/// Some splat of the chunk carries SH coefficients.
pub open spec fn any_sh(chunk: Seq<SplatBits>) -> bool {
    exists|i: int| 0 <= i < chunk.len() && #[trigger] chunk[i].color is Sh
}

/// Every SH splat has at least its three DC coefficients.
pub open spec fn dc_present(chunk: Seq<SplatBits>) -> bool {
    forall|i: int| 0 <= i < chunk.len() ==> (#[trigger] chunk[i].color matches ColorBits::Sh { coeffs, .. } ==> coeffs@.len() >= 3)
}

/// The FLOAT buffer of a chunk: the position, rotation, scale, opacity and
/// DC sections, then the SH section when any splat has SH.
pub open spec fn float_chunk_bytes(chunk: Seq<SplatBits>) -> Seq<u8> {
    section_bytes(chunk, 0) + section_bytes(chunk, 1) + section_bytes(chunk, 2) + section_bytes(chunk, 3)
        + section_bytes(chunk, 4) + if any_sh(chunk) {
        section_bytes(chunk, 5)
    } else {
        Seq::empty()
    }
}

fn attr_words_exec(s: &SplatBits, which: u8) -> (r: Vec<u32>)
    requires
        s.color matches ColorBits::Sh { coeffs, .. } ==> coeffs@.len() >= 3,
    ensures
        r@ == attr_words(*s, which as int),
{
    let mut out: Vec<u32> = Vec::new();
    if which == 0 {
        out.push(s.position[0]);
        out.push(s.position[1]);
        out.push(s.position[2]);
    } else if which == 1 {
        out.push(s.rotation[0]);
        out.push(s.rotation[1]);
        out.push(s.rotation[2]);
        out.push(s.rotation[3]);
    } else if which == 2 {
        out.push(s.scale[0]);
        out.push(s.scale[1]);
        out.push(s.scale[2]);
    } else if which == 3 {
        out.push(s.opacity);
    } else if which == 4 {
        match &s.color {
            ColorBits::Rgb(c) => {
                out.push(c[0]);
                out.push(c[1]);
                out.push(c[2]);
            },
            ColorBits::Sh { coeffs, .. } => {
                out.push(coeffs[0]);
                out.push(coeffs[1]);
                out.push(coeffs[2]);
            },
        }
    } else {
        let mut i: usize = 0;
        while i < 45
            invariant
                i <= 45,
                which >= 5,
                out@ == sh_rest_words(s.color).take(i as int),
            decreases 45 - i,
        {
            let v = match &s.color {
                ColorBits::Sh { coeffs, .. } => if i + 3 < coeffs.len() {
                    coeffs[i + 3]
                } else {
                    0
                },
                ColorBits::Rgb(_) => 0,
            };
            out.push(v);
            i += 1;
            assert(out@ =~= sh_rest_words(s.color).take(i as int));
        }
        assert(sh_rest_words(s.color).take(45) =~= sh_rest_words(s.color));
    }
    assert(out@ =~= attr_words(*s, which as int));
    out
}

pub(crate) fn push_section(out: &mut Vec<u8>, chunk: &[SplatBits], which: u8)
    requires
        dc_present(chunk@),
    ensures
        final(out)@ == old(out)@ + section_bytes(chunk@, which as int),
{
    let mut i: usize = 0;
    while i < chunk.len()
        invariant
            i <= chunk@.len(),
            dc_present(chunk@),
            out@ == old(out)@ + section_bytes(chunk@.take(i as int), which as int),
        decreases chunk@.len() - i,
    {
        let w = attr_words_exec(&chunk[i], which);
        push_words(out, w.as_slice());
        proof {
            let t = chunk@.take(i + 1);
            assert(t.drop_last() == chunk@.take(i as int));
            assert(t.last() == chunk@[i as int]);
        }
        i += 1;
    }
    assert(chunk@.take(chunk@.len() as int) == chunk@);
}

/// The FLOAT (unquantized) buffer of a chunk: each attribute in its own
/// section, every value little-endian `f32`, the SH section only when some
/// splat has SH (zero-filled for RGB splats).
pub fn pack_chunk_float(chunk: &[SplatBits]) -> (r: Vec<u8>)
    requires
        dc_present(chunk@),
    ensures
        r@ == float_chunk_bytes(chunk@),
{
    let mut has_sh = false;
    let mut i: usize = 0;
    while i < chunk.len()
        invariant
            i <= chunk@.len(),
            has_sh == exists|j: int| 0 <= j < i && #[trigger] chunk@[j].color is Sh,
        decreases chunk@.len() - i,
    {
        match &chunk[i].color {
            ColorBits::Sh { .. } => {
                has_sh = true;
            },
            ColorBits::Rgb(_) => {},
        }
        i += 1;
    }
    let mut out: Vec<u8> = Vec::new();
    push_section(&mut out, chunk, 0);
    push_section(&mut out, chunk, 1);
    push_section(&mut out, chunk, 2);
    push_section(&mut out, chunk, 3);
    push_section(&mut out, chunk, 4);
    if has_sh {
        push_section(&mut out, chunk, 5);
    }
    assert(out@ =~= float_chunk_bytes(chunk@));
    out
}


/* ---------- inspection of a parsed document ---------- */

/// The core extension block on the first primitive of the first mesh.
pub open spec fn first_khr_ext(root: Option<JsonValue>) -> Option<JsonValue> {
    member(member(first_primitive(root), "extensions"@), "KHR_gaussian_splatting"@)
}

/// An optional non-negative integer member, 0 when absent.
pub open spec fn u64_or0(v: Option<JsonValue>) -> u64 {
    match as_u64(v) {
        Some(n) => n,
        None => 0,
    }
}

/// `c` reads the chunk entry `v` of the streaming index.
pub open spec fn chunk_read(v: JsonValue, c: IndexChunk) -> bool {
    let x = Some(v);
    &&& c.buffer == as_u64(member(x, "buffer"@))
    &&& c.byte_offset == u64_or0(member(x, "byteOffset"@))
    &&& c.byte_length == u64_or0(member(x, "byteLength"@))
    &&& c.checksum@ == match as_str(member(x, "checksum"@)) {
        Some(s) => s@,
        None => Seq::<char>::empty(),
    }
    &&& c.splat_count == u64_or0(member(x, "splatCount"@))
}

/// The `count` of the accessor that the core block's `_OPACITY` attribute
/// names, or 0.
pub open spec fn opacity_count_of(root: Option<JsonValue>) -> u64 {
    match as_u64(member(member(first_khr_ext(root), "attributes"@), "_OPACITY"@)) {
        Some(i) => {
            let accs = array_member(root, "accessors"@);
            if i < accs.len() {
                u64_or0(member(Some(accs[i as int]), "count"@))
            } else {
                0
            }
        },
        None => 0,
    }
}

/// `d` holds what inspection reads of the JSON document `root`.
pub open spec fn inspect_read(root: JsonValue, d: InspectDoc) -> bool {
    let r = Some(root);
    let chunks = array_member(member(member(r, "extensions"@), sf_index_name()), "chunks"@);
    let bufs = array_member(r, "buffers"@);
    &&& strs_view(d.extensions_used@) == string_elems(array_member(r, "extensionsUsed"@))
    &&& opt_str(d.khr_version) == opt_str(as_str(member(first_khr_ext(r), "version"@)))
    &&& d.chunks@.len() == chunks.len()
    &&& forall|i: int| 0 <= i < chunks.len() ==> chunk_read(chunks[i], #[trigger] d.chunks@[i])
    &&& d.buffer_uris@.len() == bufs.len()
    &&& forall|i: int|
        0 <= i < bufs.len() ==> opt_str(#[trigger] d.buffer_uris@[i]) == opt_str(
            as_str(member(Some(bufs[i]), "uri"@)),
        )
    &&& d.opacity_count == opacity_count_of(r)
}

fn u64_member_or0(v: Option<&JsonValue>, key: &str) -> (r: u64)
    ensures
        r == u64_or0(member(opt_ref(v), key@)),
{
    match get_u64(get_member(v, key)) {
        Some(n) => n,
        None => 0,
    }
}

/// Reads what inspection needs of a parsed glTF document.
pub fn read_inspect_doc(root: &JsonValue) -> (d: InspectDoc)
    ensures
        inspect_read(*root, d),
{
    let r = Some(root);
    let empty: Vec<JsonValue> = Vec::new();
    let prim = get_first(get_member(get_first(get_member(r, "meshes")), "primitives"));
    let khr = get_member(get_member(prim, "extensions"), "KHR_gaussian_splatting");
    let chunk_vals = match get_array(get_member(get_member(get_member(r, "extensions"), "SF_spatial_streaming_index"), "chunks")) {
        Some(a) => a,
        None => &empty,
    };
    proof {
        reveal_strlit("SF_spatial_streaming_index");
    }
    let buf_vals = match get_array(get_member(r, "buffers")) {
        Some(a) => a,
        None => &empty,
    };
    let mut chunks: Vec<IndexChunk> = Vec::new();
    let mut i: usize = 0;
    while i < chunk_vals.len()
        invariant
            i <= chunk_vals@.len(),
            chunks@.len() == i,
            forall|j: int| 0 <= j < i ==> chunk_read(chunk_vals@[j], #[trigger] chunks@[j]),
        decreases chunk_vals@.len() - i,
    {
        let x = Some(&chunk_vals[i]);
        let checksum = match get_string(get_member(x, "checksum")) {
            Some(s) => s,
            None => {
                proof {
                    reveal_strlit("");
                }
                let e = lit("");
                assert(e@ =~= Seq::<char>::empty());
                e
            },
        };
        chunks.push(
            IndexChunk {
                buffer: get_u64(get_member(x, "buffer")),
                byte_offset: u64_member_or0(x, "byteOffset"),
                byte_length: u64_member_or0(x, "byteLength"),
                checksum,
                splat_count: u64_member_or0(x, "splatCount"),
            },
        );
        i += 1;
    }
    let mut buffer_uris: Vec<Option<String>> = Vec::new();
    let mut i: usize = 0;
    while i < buf_vals.len()
        invariant
            i <= buf_vals@.len(),
            buffer_uris@.len() == i,
            forall|j: int|
                0 <= j < i ==> opt_str(#[trigger] buffer_uris@[j]) == opt_str(
                    as_str(member(Some(buf_vals@[j]), "uri"@)),
                ),
        decreases buf_vals@.len() - i,
    {
        let u = get_string(get_member(Some(&buf_vals[i]), "uri"));
        buffer_uris.push(u);
        i += 1;
    }
    let opacity_count = match get_u64(get_member(get_member(khr, "attributes"), "_OPACITY")) {
        Some(idx) => match get_array(get_member(r, "accessors")) {
            Some(accs) => if idx < accs.len() as u64 {
                u64_member_or0(Some(&accs[idx as usize]), "count")
            } else {
                0
            },
            None => 0,
        },
        None => 0,
    };
    InspectDoc {
        extensions_used: string_members(r, "extensionsUsed"),
        khr_version: get_string(get_member(khr, "version")),
        chunks,
        buffer_uris,
        opacity_count,
    }
}

/// Parses the text of a `.gltf` file and reads what inspection needs: a
/// `Json` error exactly when serde_json rejects the text.
pub fn inspect_text(text: &str) -> (r: Result<InspectDoc, GltfError>)
    ensures
        r is Ok <==> json_parse(text@) is Some,
        match (r, json_parse(text@)) {
            (Ok(d), Some(v)) => inspect_read(v, d),
            (Err(e), None) => e is Json,
            _ => true,
        },
{
    match parse_json(text) {
        Ok(v) => Ok(read_inspect_doc(&v)),
        Err(m) => Err(GltfError::Json(m)),
    }
}

/// Chunk `i` resolves to a readable buffer and its checksum matches.
pub open spec fn chunk_ok(doc: InspectDoc, bufs: Seq<Option<Vec<u8>>>, i: int) -> bool {
    let c = doc.chunks@[i];
    match c.buffer {
        None => false,
        Some(b) => {
            let bi = b as usize as int;
            &&& bi < doc.buffer_uris@.len()
            &&& doc.buffer_uris@[bi] is Some
            &&& bi < bufs.len()
            &&& bufs[bi] is Some
            &&& blake3_label(chunk_slice(c, bufs[bi]->0@)) == c.checksum@
        },
    }
}

/// The bytes of chunk `c` in its buffer's bytes `d`.
pub open spec fn chunk_slice(c: IndexChunk, d: Seq<u8>) -> Seq<u8> {
    let start = c.byte_offset as usize as int;
    d.subrange(start, start + c.byte_length as usize as int)
}

/// `e` is the error chunk `i` fails with.
pub open spec fn chunk_error(e: GltfError, doc: InspectDoc, bufs: Seq<Option<Vec<u8>>>, i: int) -> bool {
    let c = doc.chunks@[i];
    match c.buffer {
        None => e matches GltfError::Malformed(m) && m@ == "chunk missing buffer"@,
        Some(b) => {
            let bi = b as usize as int;
            if bi >= doc.buffer_uris@.len() {
                e matches GltfError::Malformed(m) && m@ == missing_buffer_message(i as nat)
            } else {
                match doc.buffer_uris@[bi] {
                    None => e matches GltfError::Malformed(m) && m@ == "buffer has no uri"@,
                    Some(u) => if bi >= bufs.len() || bufs[bi] is None {
                        e matches GltfError::BufferNotFound(m) && m@ == u@
                    } else {
                        e matches GltfError::ChecksumMismatch(j) && j == i
                    },
                }
            }
        },
    }
}

/// The first of the first `k` chunks that is not ok.
pub open spec fn first_bad_chunk(doc: InspectDoc, bufs: Seq<Option<Vec<u8>>>, k: int) -> Option<int>
    decreases k,
{
    if k <= 0 {
        None
    } else {
        match first_bad_chunk(doc, bufs, k - 1) {
            Some(j) => Some(j),
            None => if chunk_ok(doc, bufs, k - 1) {
                None
            } else {
                Some(k - 1)
            },
        }
    }
}

/// The splat counts of the first `k` chunks, summed.
pub open spec fn chunk_splats(doc: InspectDoc, k: int) -> nat
    decreases k,
{
    if k <= 0 {
        0
    } else {
        chunk_splats(doc, k - 1) + doc.chunks@[k - 1].splat_count as usize as nat
    }
}

/// How far the walk over the chunks goes: to the first bad chunk, included.
pub open spec fn walk_end(doc: InspectDoc, bufs: Seq<Option<Vec<u8>>>) -> int {
    match first_bad_chunk(doc, bufs, doc.chunks@.len() as int) {
        Some(j) => j + 1,
        None => doc.chunks@.len() as int,
    }
}

/// Every chunk the walk reaches whose buffer was read lies inside it, and
/// the splat counts it adds fit a `usize`.
pub open spec fn chunks_checkable(doc: InspectDoc, bufs: Seq<Option<Vec<u8>>>) -> bool {
    &&& forall|i: int|
        0 <= i < walk_end(doc, bufs) ==> {
            let c = #[trigger] doc.chunks@[i];
            (c.buffer matches Some(b) && (b as usize as int) < bufs.len() && bufs[b as usize as int] is Some)
                ==> c.byte_offset as usize as int + c.byte_length as usize as int <= bufs[c.buffer->0 as usize as int]->0@.len()
        }
    &&& chunk_splats(doc, walk_end(doc, bufs)) <= usize::MAX
}

proof fn lemma_first_bad_stays(doc: InspectDoc, bufs: Seq<Option<Vec<u8>>>, i: int, k: int)
    requires
        0 <= i <= k,
        first_bad_chunk(doc, bufs, i) is Some,
    ensures
        first_bad_chunk(doc, bufs, k) == first_bad_chunk(doc, bufs, i),
    decreases k - i,
{
    if k > i {
        lemma_first_bad_stays(doc, bufs, i, k - 1);
    }
}

proof fn lemma_splats_mono(doc: InspectDoc, i: int, k: int)
    requires
        0 <= i <= k,
    ensures
        chunk_splats(doc, i) <= chunk_splats(doc, k),
    decreases k - i,
{
    if k > i {
        lemma_splats_mono(doc, i, k - 1);
    }
}

/// Whether the chunk walk can run on these buffers (see `chunks_checkable`).
pub fn chunks_in_range(doc: &InspectDoc, bufs: &Vec<Option<Vec<u8>>>) -> (r: bool)
    ensures
        r == chunks_checkable(*doc, bufs@),
{
    let n = doc.chunks.len();
    let mut sum: u128 = 0;
    let mut i: usize = 0;
    let mut bad = false;
    while i < n && !bad
        invariant
            n == doc.chunks@.len(),
            i <= n,
            !bad ==> first_bad_chunk(*doc, bufs@, i as int) is None,
            bad ==> i > 0 && first_bad_chunk(*doc, bufs@, i as int) == Some(i - 1),
            sum == chunk_splats(*doc, i as int),
            sum <= i * 18446744073709551615,
            forall|j: int|
                0 <= j < i ==> {
                    let c = #[trigger] doc.chunks@[j];
                    (c.buffer matches Some(b) && (b as usize as int) < bufs@.len() && bufs@[b as usize as int] is Some)
                        ==> c.byte_offset as usize as int + c.byte_length as usize as int <= bufs@[c.buffer->0 as usize as int]->0@.len()
                },
        decreases n - i,
    {
        let c = &doc.chunks[i];
        let mut fits = true;
        let mut ok = false;
        match c.buffer {
            Some(b) => {
                let bi = b as usize;
                if bi < bufs.len() {
                    match &bufs[bi] {
                        Some(d) => {
                            let start = c.byte_offset as usize;
                            let len = c.byte_length as usize;
                            if (start as u128) + (len as u128) > d.len() as u128 {
                                fits = false;
                            } else if bi < doc.buffer_uris.len() && doc.buffer_uris[bi].is_some() {
                                let label = blake3_tagged(&d.as_slice()[start..start + len]);
                                ok = str_eq(label.as_str(), c.checksum.as_str());
                            }
                        },
                        None => {},
                    }
                }
            },
            None => {},
        }
        if !fits {
            proof {
                lemma_first_bad_after(*doc, bufs@, i as int, n as int);
                assert(!bad);
                assert(walk_end(*doc, bufs@) > i);
                let cc = doc.chunks@[i as int];
                assert(!((cc.buffer matches Some(b) && (b as usize as int) < bufs@.len() && bufs@[b as usize as int] is Some)
                    ==> cc.byte_offset as usize as int + cc.byte_length as usize as int <= bufs@[cc.buffer->0 as usize as int]->0@.len()));
            }
            return false;
        }
        assert(sum + c.splat_count as usize as nat <= (i + 1) * 18446744073709551615) by (nonlinear_arith)
            requires
                sum <= i * 18446744073709551615,
                c.splat_count as usize as nat <= 18446744073709551615,
        ;
        sum = sum + (c.splat_count as usize) as u128;
        if !ok {
            bad = true;
        }
        i += 1;
    }
    proof {
        if bad {
            lemma_first_bad_stays(*doc, bufs@, i as int, n as int);
        }
    }
    sum <= usize::MAX as u128
}

proof fn lemma_first_bad_after(doc: InspectDoc, bufs: Seq<Option<Vec<u8>>>, i: int, k: int)
    requires
        0 <= i <= k,
        first_bad_chunk(doc, bufs, i) is None,
    ensures
        first_bad_chunk(doc, bufs, k) matches Some(j) ==> j >= i,
    decreases k - i,
{
    if k > i {
        lemma_first_bad_after(doc, bufs, i, k - 1);
    }
}

/// Walks the chunks of the streaming index: each must name a buffer with a
/// URI whose bytes were read and whose byte range hashes to its checksum.
/// Stops at the first chunk that does not (with that chunk's error);
/// otherwise gives the sum of the chunks' splat counts.
pub fn inspect_chunks(doc: &InspectDoc, bufs: &Vec<Option<Vec<u8>>>) -> (r: Result<usize, GltfError>)
    requires
        chunks_checkable(*doc, bufs@),
    ensures
        match first_bad_chunk(*doc, bufs@, doc.chunks@.len() as int) {
            Some(j) => r is Err && chunk_error(r->Err_0, *doc, bufs@, j),
            None => r is Ok && r->Ok_0 as nat == chunk_splats(*doc, doc.chunks@.len() as int),
        },
{
    let n = doc.chunks.len();
    let mut sum: usize = 0;
    let mut i: usize = 0;
    proof {
        lemma_first_bad_after(*doc, bufs@, 0, n as int);
    }
    while i < n
        invariant
            n == doc.chunks@.len(),
            i <= n,
            chunks_checkable(*doc, bufs@),
            first_bad_chunk(*doc, bufs@, i as int) is None,
            sum as nat == chunk_splats(*doc, i as int),
        decreases n - i,
    {
        proof {
            lemma_first_bad_after(*doc, bufs@, i as int, n as int);
            lemma_splats_mono(*doc, i + 1, walk_end(*doc, bufs@));
        }
        let c = &doc.chunks[i];
        let uri = match chunk_buffer_uri(i, c, &doc.buffer_uris) {
            Ok(u) => u,
            Err(e) => {
                proof {
                    assert(!chunk_ok(*doc, bufs@, i as int));
                    assert(first_bad_chunk(*doc, bufs@, i + 1) == Some(i as int));
                    lemma_first_bad_stays(*doc, bufs@, i + 1, n as int);
                }
                return Err(e);
            },
        };
        let bi = c.buffer.unwrap() as usize;
        let data = if bi < bufs.len() {
            match &bufs[bi] {
                Some(d) => d,
                None => {
                    proof {
                        assert(first_bad_chunk(*doc, bufs@, i + 1) == Some(i as int));
                        lemma_first_bad_stays(*doc, bufs@, i + 1, n as int);
                    }
                    return Err(GltfError::BufferNotFound(uri));
                },
            }
        } else {
            proof {
                assert(first_bad_chunk(*doc, bufs@, i + 1) == Some(i as int));
                lemma_first_bad_stays(*doc, bufs@, i + 1, n as int);
            }
            return Err(GltfError::BufferNotFound(uri));
        };
        assert(c.byte_offset as usize as int + c.byte_length as usize as int <= data@.len());
        match check_chunk_bytes(i, c, data.as_slice()) {
            Ok(k) => {
                assert(chunk_ok(*doc, bufs@, i as int));
                sum = sum + k;
            },
            Err(e) => {
                proof {
                    assert(!chunk_ok(*doc, bufs@, i as int));
                    assert(first_bad_chunk(*doc, bufs@, i + 1) == Some(i as int));
                    lemma_first_bad_stays(*doc, bufs@, i + 1, n as int);
                }
                return Err(e);
            },
        }
        i += 1;
    }
    Ok(sum)
}

/// Inspects a parsed glTF document whose buffers have been read (`bufs[b]`
/// holds the bytes of buffer `b`'s file, when it could be read): checks the
/// core extension and its version, then either reports the opacity count
/// (no streaming index) or walks the index's chunks.
pub fn inspect_document(doc: &InspectDoc, bufs: &Vec<Option<Vec<u8>>>) -> (r: Result<InspectReport, GltfError>)
    requires
        seq_has(doc.extensions_used@, sf_index_name()) ==> chunks_checkable(*doc, bufs@),
    ensures
        !seq_has(doc.extensions_used@, khr_name()) ==> r matches Err(GltfError::MissingExtension),
        seq_has(doc.extensions_used@, khr_name()) && (doc.khr_version matches Some(v) && v@ != "1"@) ==> (
        r matches Err(GltfError::UnsupportedVersion(m)) && Some(m@) == opt_str(doc.khr_version)),
        seq_has(doc.extensions_used@, khr_name()) && !(doc.khr_version matches Some(v) && v@ != "1"@) ==> {
            if !seq_has(doc.extensions_used@, sf_index_name()) {
                r == Ok::<InspectReport, GltfError>(
                    InspectReport {
                        has_khr: true,
                        has_spatial_index: false,
                        chunk_count: 0,
                        checksum_ok: true,
                        splat_count: doc.opacity_count as usize,
                    },
                )
            } else {
                match first_bad_chunk(*doc, bufs@, doc.chunks@.len() as int) {
                    Some(j) => r is Err && chunk_error(r->Err_0, *doc, bufs@, j),
                    None => r is Ok && r->Ok_0.has_khr && r->Ok_0.has_spatial_index && r->Ok_0.chunk_count
                        == doc.chunks@.len() && r->Ok_0.checksum_ok && r->Ok_0.splat_count as nat
                        == chunk_splats(*doc, doc.chunks@.len() as int),
                }
            }
        },
{
    let has_index = match inspect_extensions(doc) {
        Ok(b) => b,
        Err(e) => {
            return Err(e);
        },
    };
    if !has_index {
        return Ok(plain_inspect_report(doc));
    }
    match inspect_chunks(doc, bufs) {
        Ok(splat_count) => Ok(
            InspectReport {
                has_khr: true,
                has_spatial_index: true,
                chunk_count: doc.chunks.len(),
                checksum_ok: true,
                splat_count,
            },
        ),
        Err(e) => Err(e),
    }
}

} // verus!
