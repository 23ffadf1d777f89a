//! Buffer views and accessors of a `KHR_gaussian_splatting` buffer: where
//! each splat attribute lives, in FLOAT or `KHR_mesh_quantization` form,
//! and how a reader finds the bytes of an attribute again.
use vstd::prelude::*;
use crate::gltf::{GltfError, round_up, align_up, pad_to, padded4, push_section, section_bytes, any_sh, dc_present, attr_words, dc_words, sh_rest_words, float_chunk_bytes};
use crate::ir::{SplatBits, ColorBits};
use crate::bytes::{words_le, lemma_words_le_len, lemma_words_le_concat, lemma_words_roundtrip, le_u16, words_at, read_u16_le, read_words, copy_range};
use crate::text::{lit, push_decimal, decimal, str_eq};
use crate::gltf::{khr_name, sf_index_name};

verus! {

/// `componentType` of 32-bit floats.
pub const FLOAT: u32 = 5126;
/// `componentType` of unsigned bytes.
pub const UBYTE: u32 = 5121;
/// `componentType` of unsigned 16-bit integers.
pub const USHORT: u32 = 5123;

/// The `type` of an accessor: how many components make one element.
#[derive(Debug, Clone, Copy, PartialEq, Eq, Structural)]
pub enum AccessorType {
    /// One component.
    Scalar,
    /// Three components.
    Vec3,
    /// Four components.
    Vec4,
}

/// The glTF spelling of an accessor type.
pub open spec fn gltf_type_name(t: AccessorType) -> Seq<char> {
    match t {
        AccessorType::Scalar => "SCALAR"@,
        AccessorType::Vec3 => "VEC3"@,
        AccessorType::Vec4 => "VEC4"@,
    }
}

impl AccessorType {
    /// The glTF spelling (`SCALAR`, `VEC3`, `VEC4`).
    pub fn name(&self) -> (r: String)
        ensures
            r@ == gltf_type_name(*self),
    {
        match self {
            AccessorType::Scalar => lit("SCALAR"),
            AccessorType::Vec3 => lit("VEC3"),
            AccessorType::Vec4 => lit("VEC4"),
        }
    }

    /// The accessor type spelled `s`, if any.
    pub fn parse(s: &str) -> (r: Option<AccessorType>)
        ensures
            r matches Some(t) ==> gltf_type_name(t) == s@,
            r is None ==> forall|t: AccessorType| gltf_type_name(t) != s@,
    {
        proof {
            reveal_strlit("SCALAR");
            reveal_strlit("VEC3");
            reveal_strlit("VEC4");
        }
        if str_eq(s, "SCALAR") {
            Some(AccessorType::Scalar)
        } else if str_eq(s, "VEC3") {
            Some(AccessorType::Vec3)
        } else if str_eq(s, "VEC4") {
            Some(AccessorType::Vec4)
        } else {
            None
        }
    }
}

/// Parsing the spelling of a type gives the type back.
pub proof fn lemma_type_name_roundtrip(t: AccessorType, u: AccessorType)
    ensures
        gltf_type_name(t) == gltf_type_name(u) ==> t == u,
{
    reveal_strlit("SCALAR");
    reveal_strlit("VEC3");
    reveal_strlit("VEC4");
    assert("SCALAR"@.len() == 6);
    assert("VEC3"@[3] != "VEC4"@[3]);
}

/// A byte range of one buffer.
#[derive(Debug, Clone, Copy, PartialEq, Eq, Structural)]
pub struct BufferView {
    pub buffer: usize,
    pub byte_offset: usize,
    pub byte_length: usize,
}

/// A typed view of the elements stored in a buffer view. `min`/`max` bounds
/// are floating-point and kept by the caller.
#[derive(Debug, Clone, Copy, PartialEq, Eq, Structural)]
pub struct Accessor {
    pub buffer_view: usize,
    pub component_type: u32,
    pub count: usize,
    pub accessor_type: AccessorType,
    /// Integer components stand for values normalized to `[0, 1]`.
    pub normalized: bool,
}

/// The `bufferViews` and `accessors` arrays of a glTF document.
#[derive(Debug, Clone)]
pub struct AccessorTable {
    pub buffer_views: Vec<BufferView>,
    pub accessors: Vec<Accessor>,
}

impl AccessorTable {
    /// A document with no views and no accessors.
    pub fn new() -> (r: Self)
        ensures
            r.buffer_views@.len() == 0,
            r.accessors@.len() == 0,
    {
        AccessorTable { buffer_views: Vec::new(), accessors: Vec::new() }
    }
}

/// The view `[offset, offset + len)` of buffer `buffer`.
pub open spec fn view_of(buffer: usize, offset: int, len: int) -> BufferView {
    BufferView { buffer, byte_offset: offset as usize, byte_length: len as usize }
}

/// An accessor over view `view` with the given shape, not normalized.
pub open spec fn accessor_of(view: int, component_type: u32, count: usize, t: AccessorType) -> Accessor {
    Accessor {
        buffer_view: view as usize,
        component_type,
        count,
        accessor_type: t,
        normalized: false,
    }
}

/// Appends a view of `byte_len` bytes at `*offset` and an accessor over it,
/// advances `*offset` past the view, and returns the accessor's index.
pub fn add_view_acc_typed(
    table: &mut AccessorTable,
    buffer_idx: usize,
    offset: &mut usize,
    count: usize,
    byte_len: usize,
    accessor_ty: AccessorType,
    component_type: u32,
) -> (acc: usize)
    requires
        *old(offset) + byte_len <= usize::MAX,
    ensures
        acc == old(table).accessors@.len(),
        final(table).buffer_views@ == old(table).buffer_views@.push(
            view_of(buffer_idx, *old(offset) as int, byte_len as int),
        ),
        final(table).accessors@ == old(table).accessors@.push(
            accessor_of(old(table).buffer_views@.len() as int, component_type, count, accessor_ty),
        ),
        *final(offset) == *old(offset) + byte_len,
{
    let bv = table.buffer_views.len();
    table.buffer_views.push(BufferView { buffer: buffer_idx, byte_offset: *offset, byte_length: byte_len });
    let acc = table.accessors.len();
    table.accessors.push(
        Accessor {
            buffer_view: bv,
            component_type,
            count,
            accessor_type: accessor_ty,
            normalized: false,
        },
    );
    *offset = *offset + byte_len;
    acc
}

/// `add_view_acc_typed` for a FLOAT accessor.
pub fn add_view_acc(
    table: &mut AccessorTable,
    buffer_idx: usize,
    offset: &mut usize,
    count: usize,
    byte_len: usize,
    accessor_ty: AccessorType,
) -> (acc: usize)
    requires
        *old(offset) + byte_len <= usize::MAX,
    ensures
        acc == old(table).accessors@.len(),
        final(table).buffer_views@ == old(table).buffer_views@.push(
            view_of(buffer_idx, *old(offset) as int, byte_len as int),
        ),
        final(table).accessors@ == old(table).accessors@.push(
            accessor_of(old(table).buffer_views@.len() as int, FLOAT, count, accessor_ty),
        ),
        *final(offset) == *old(offset) + byte_len,
{
    add_view_acc_typed(table, buffer_idx, offset, count, byte_len, accessor_ty, FLOAT)
}

// ---------- attribute layouts ----------

/// The accessor type of attribute `k`: position, rotation, scale, opacity,
/// DC color, higher-order SH.
pub open spec fn attr_type(k: int) -> AccessorType {
    if k == 1 {
        AccessorType::Vec4
    } else if k == 3 || k == 5 {
        AccessorType::Scalar
    } else {
        AccessorType::Vec3
    }
}

/// Byte ranges `(offset, length)` of the attributes of `n` FLOAT splats;
/// the SH range only when some splat has SH.
pub open spec fn float_spans(n: int, has_sh: bool) -> Seq<(int, int)> {
    let base = seq![(0, 12 * n), (12 * n, 16 * n), (28 * n, 12 * n), (40 * n, 4 * n), (44 * n, 12 * n)];
    if has_sh {
        base.push((56 * n, 180 * n))
    } else {
        base
    }
}

/// Offsets of the quantized attribute ranges: every integer attribute
/// starts on a multiple of four.
pub open spec fn quant_offsets(n: int) -> Seq<int> {
    let o1 = round_up(6 * n, 4);
    let o2 = o1 + 16 * n;
    let o3 = round_up(o2 + 3 * n, 4);
    let o4 = round_up(o3 + n, 4);
    let o5 = round_up(o4 + 3 * n, 4);
    seq![0, o1, o2, o3, o4, o5]
}

/// Byte ranges `(offset, length)` of the attributes of `n` quantized splats:
/// u16 position, FLOAT rotation, u8 scale, u8 opacity, u8 DC color and, when
/// some splat has SH, FLOAT SH.
pub open spec fn quantized_spans(n: int, has_sh: bool) -> Seq<(int, int)> {
    let o = quant_offsets(n);
    let base = seq![(o[0], 6 * n), (o[1], 16 * n), (o[2], 3 * n), (o[3], n), (o[4], 3 * n)];
    if has_sh {
        base.push((o[5], 180 * n))
    } else {
        base
    }
}

/// Component type of quantized attribute `k`.
pub open spec fn quant_component(k: int) -> u32 {
    if k == 0 {
        USHORT
    } else if k == 1 || k == 5 {
        FLOAT
    } else {
        UBYTE
    }
}

/// The views of the given ranges in buffer `buffer`.
pub open spec fn planned_views(buffer: usize, spans: Seq<(int, int)>) -> Seq<BufferView> {
    Seq::new(spans.len(), |k: int| view_of(buffer, spans[k].0, spans[k].1))
}

/// The accessors of the attributes laid out by `spans`, the first over view
/// `first_view`: FLOAT and not normalized, or, when `quantized`, integer
/// and normalized for position, scale, opacity and DC color.
pub open spec fn planned_accessors(first_view: int, n: usize, quantized: bool, count: nat) -> Seq<Accessor> {
    Seq::new(
        count,
        |k: int|
            Accessor {
                buffer_view: (first_view + k) as usize,
                component_type: if quantized {
                    quant_component(k)
                } else {
                    FLOAT
                },
                count: n,
                accessor_type: attr_type(k),
                normalized: quantized && quant_component(k) != FLOAT,
            },
    )
}

/// `n` splats' attributes fit in a buffer addressable by `usize`.
pub open spec fn layout_fits(n: int) -> bool {
    240 * n + 16 <= usize::MAX
}

/// The indices handed back by an emitter: accessors `first .. first + 5`,
/// then `first + 5` for SH when present.
pub open spec fn emitted_indices(r: (usize, usize, usize, usize, usize, Option<usize>), first: int, has_sh: bool) -> bool {
    &&& r.0 == first
    &&& r.1 == first + 1
    &&& r.2 == first + 2
    &&& r.3 == first + 3
    &&& r.4 == first + 4
    &&& r.5 == if has_sh {
        Some((first + 5) as usize)
    } else {
        None
    }
}

/// Appends the views and FLOAT accessors of `n` splats stored in buffer
/// `buffer_idx`: position, rotation, scale, opacity, DC color, and the 45
/// higher-order SH coefficients per splat when `has_sh`.
pub fn emit_float_accessors(table: &mut AccessorTable, buffer_idx: usize, n: usize, has_sh: bool) -> (r: (
    usize,
    usize,
    usize,
    usize,
    usize,
    Option<usize>,
))
    requires
        layout_fits(n as int),
    ensures
        final(table).buffer_views@ == old(table).buffer_views@ + planned_views(
            buffer_idx,
            float_spans(n as int, has_sh),
        ),
        final(table).accessors@ == old(table).accessors@ + planned_accessors(
            old(table).buffer_views@.len() as int,
            n,
            false,
            float_spans(n as int, has_sh).len(),
        ),
        emitted_indices(r, old(table).accessors@.len() as int, has_sh),
{
    let ghost v0 = old(table).buffer_views@;
    let ghost a0 = old(table).accessors@;
    let mut offset: usize = 0;
    let pos_acc = add_view_acc(table, buffer_idx, &mut offset, n, n * 12, AccessorType::Vec3);
    let rot_acc = add_view_acc(table, buffer_idx, &mut offset, n, n * 16, AccessorType::Vec4);
    let scale_acc = add_view_acc(table, buffer_idx, &mut offset, n, n * 12, AccessorType::Vec3);
    let op_acc = add_view_acc(table, buffer_idx, &mut offset, n, n * 4, AccessorType::Scalar);
    let dc_acc = add_view_acc(table, buffer_idx, &mut offset, n, n * 12, AccessorType::Vec3);
    let sh_acc_opt = if has_sh {
        Some(add_view_acc(table, buffer_idx, &mut offset, n, n * 45 * 4, AccessorType::Scalar))
    } else {
        None
    };
    proof {
        let spans = float_spans(n as int, has_sh);
        assert(table.buffer_views@ =~= v0 + planned_views(buffer_idx, spans));
        assert(table.accessors@ =~= a0 + planned_accessors(v0.len() as int, n, false, spans.len()));
    }
    (pos_acc, rot_acc, scale_acc, op_acc, dc_acc, sh_acc_opt)
}

/// `a` with its components marked normalized.
pub open spec fn normalized_of(a: Accessor) -> Accessor {
    Accessor { normalized: true, ..a }
}

/// Marks accessor `acc` as normalized.
fn mark_normalized(table: &mut AccessorTable, acc: usize)
    requires
        acc < old(table).accessors@.len(),
    ensures
        final(table).buffer_views@ == old(table).buffer_views@,
        final(table).accessors@ == old(table).accessors@.update(
            acc as int,
            normalized_of(old(table).accessors@[acc as int]),
        ),
{
    let mut a = table.accessors[acc];
    a.normalized = true;
    table.accessors.set(acc, a);
}

/// Appends the views and accessors of `n` splats stored in buffer
/// `buffer_idx` under `KHR_mesh_quantization`: normalized u16 position,
/// FLOAT rotation, normalized u8 scale, opacity and DC color, and FLOAT SH
/// when `has_sh`; every integer attribute starts on a multiple of four.
pub fn emit_quantized_accessors(table: &mut AccessorTable, buffer_idx: usize, n: usize, has_sh: bool) -> (r: (
    usize,
    usize,
    usize,
    usize,
    usize,
    Option<usize>,
))
    requires
        layout_fits(n as int),
    ensures
        final(table).buffer_views@ == old(table).buffer_views@ + planned_views(
            buffer_idx,
            quantized_spans(n as int, has_sh),
        ),
        final(table).accessors@ == old(table).accessors@ + planned_accessors(
            old(table).buffer_views@.len() as int,
            n,
            true,
            quantized_spans(n as int, has_sh).len(),
        ),
        emitted_indices(r, old(table).accessors@.len() as int, has_sh),
{
    let ghost v0 = old(table).buffer_views@;
    let ghost a0 = old(table).accessors@;
    assert(4usize & ((4usize - 1) as usize) == 0) by (bit_vector);
    let mut offset: usize = 0;
    let pos_acc = add_view_acc_typed(table, buffer_idx, &mut offset, n, n * 6, AccessorType::Vec3, USHORT);
    mark_normalized(table, pos_acc);
    offset = align_up(offset, 4);
    let rot_acc = add_view_acc(table, buffer_idx, &mut offset, n, n * 16, AccessorType::Vec4);
    let scale_acc = add_view_acc_typed(table, buffer_idx, &mut offset, n, n * 3, AccessorType::Vec3, UBYTE);
    mark_normalized(table, scale_acc);
    offset = align_up(offset, 4);
    let op_acc = add_view_acc_typed(table, buffer_idx, &mut offset, n, n, AccessorType::Scalar, UBYTE);
    mark_normalized(table, op_acc);
    offset = align_up(offset, 4);
    let dc_acc = add_view_acc_typed(table, buffer_idx, &mut offset, n, n * 3, AccessorType::Vec3, UBYTE);
    mark_normalized(table, dc_acc);
    offset = align_up(offset, 4);
    let sh_acc_opt = if has_sh {
        Some(add_view_acc(table, buffer_idx, &mut offset, n, n * 45 * 4, AccessorType::Scalar))
    } else {
        None
    };
    proof {
        let spans = quantized_spans(n as int, has_sh);
        assert(table.buffer_views@ =~= v0 + planned_views(buffer_idx, spans));
        assert(table.accessors@ =~= a0 + planned_accessors(v0.len() as int, n, true, spans.len()));
    }
    (pos_acc, rot_acc, scale_acc, op_acc, dc_acc, sh_acc_opt)
}

// ---------- quantized chunk buffers ----------

/// Integer codes of one splat under `KHR_mesh_quantization`: u16 position
/// normalized to the chunk's bounds, u8 scale normalized to the chunk's
/// scale bounds, u8 opacity and DC color normalized to `[0, 1]`.
#[derive(Debug, Clone, Copy)]
pub struct QuantCodes {
    pub position: [u16; 3],
    pub scale: [u8; 3],
    pub opacity: u8,
    pub color_dc: [u8; 3],
}

/// The two little-endian bytes of `x`.
pub open spec fn u16_le(x: u16) -> Seq<u8> {
    seq![(x % 256) as u8, (x / 256) as u8]
}

/// The bytes one splat's codes contribute to attribute `which`: position
/// (0), scale (2), opacity (3) or DC color (4).
pub open spec fn code_bytes(c: QuantCodes, which: int) -> Seq<u8> {
    if which == 0 {
        u16_le(c.position[0]) + u16_le(c.position[1]) + u16_le(c.position[2])
    } else if which == 2 {
        c.scale@
    } else if which == 3 {
        seq![c.opacity]
    } else {
        c.color_dc@
    }
}

/// The bytes of quantized attribute `which` for all splats, in order.
pub open spec fn codes_section(codes: Seq<QuantCodes>, which: int) -> Seq<u8>
    decreases codes.len(),
{
    if codes.len() == 0 {
        Seq::empty()
    } else {
        codes_section(codes.drop_last(), which) + code_bytes(codes.last(), which)
    }
}

/// The quantized buffer of a chunk: u16 positions, FLOAT rotations, u8
/// scales, opacities and DC colors, each integer section zero-padded to a
/// multiple of four bytes, then FLOAT SH when some splat has SH.
pub open spec fn quantized_chunk_bytes(chunk: Seq<SplatBits>, codes: Seq<QuantCodes>) -> Seq<u8> {
    let a = padded4(codes_section(codes, 0), 0u8);
    let b = padded4(a + section_bytes(chunk, 1) + codes_section(codes, 2), 0u8);
    let c = padded4(b + codes_section(codes, 3), 0u8);
    let d = padded4(c + codes_section(codes, 4), 0u8);
    if any_sh(chunk) {
        d + section_bytes(chunk, 5)
    } else {
        d
    }
}

/// `round_up(x, 4)` is the least multiple of four not below `x`.
pub proof fn lemma_round_up4(x: int)
    requires
        x >= 0,
    ensures
        x <= round_up(x, 4) <= x + 3,
        round_up(x, 4) % 4 == 0,
{
    vstd::arithmetic::div_mod::lemma_fundamental_div_mod(x + 3, 4);
    vstd::arithmetic::div_mod::lemma_mod_multiples_basic((x + 3) / 4, 4);
}

/// Section lengths of quantized codes: 6, 3, 1 and 3 bytes per splat.
pub proof fn lemma_codes_section_len(codes: Seq<QuantCodes>, which: int)
    ensures
        which == 0 ==> codes_section(codes, which).len() == 6 * codes.len(),
        (which == 2 || which == 4) ==> codes_section(codes, which).len() == 3 * codes.len(),
        which == 3 ==> codes_section(codes, which).len() == codes.len(),
    decreases codes.len(),
{
    if codes.len() > 0 {
        lemma_codes_section_len(codes.drop_last(), which);
    }
}

/// Section lengths of FLOAT attributes: 12, 16, 12, 4, 12 and 180 bytes
/// per splat.
pub proof fn lemma_section_len(chunk: Seq<SplatBits>, which: int)
    requires
        dc_present(chunk),
    ensures
        (which == 0 || which == 2 || which == 4) ==> section_bytes(chunk, which).len() == 12 * chunk.len(),
        which == 1 ==> section_bytes(chunk, which).len() == 16 * chunk.len(),
        which == 3 ==> section_bytes(chunk, which).len() == 4 * chunk.len(),
        which >= 5 ==> section_bytes(chunk, which).len() == 180 * chunk.len(),
    decreases chunk.len(),
{
    if chunk.len() > 0 {
        let init = chunk.drop_last();
        assert forall|i: int| 0 <= i < init.len() implies (#[trigger] init[i].color matches ColorBits::Sh { coeffs, .. } ==> coeffs@.len() >= 3) by {
            assert(init[i] == chunk[i]);
        }
        lemma_section_len(init, which);
        let s = chunk.last();
        assert(s == chunk[chunk.len() - 1]);
        lemma_words_le_len(attr_words(s, which));
    }
}

/// Appends the little-endian bytes of `x`.
fn push_u16_le(out: &mut Vec<u8>, x: u16)
    ensures
        final(out)@ == old(out)@ + u16_le(x),
{
    out.push((x % 256) as u8);
    out.push((x / 256) as u8);
    assert(out@ =~= old(out)@ + u16_le(x));
}

/// Appends quantized section `which` of `codes`.
fn push_codes(out: &mut Vec<u8>, codes: &[QuantCodes], which: u8)
    ensures
        final(out)@ == old(out)@ + codes_section(codes@, which as int),
{
    let mut i: usize = 0;
    while i < codes.len()
        invariant
            i <= codes@.len(),
            out@ == old(out)@ + codes_section(codes@.take(i as int), which as int),
        decreases codes@.len() - i,
    {
        let c = codes[i];
        let ghost before = out@;
        if which == 0 {
            push_u16_le(out, c.position[0]);
            push_u16_le(out, c.position[1]);
            push_u16_le(out, c.position[2]);
        } else if which == 2 {
            out.push(c.scale[0]);
            out.push(c.scale[1]);
            out.push(c.scale[2]);
        } else if which == 3 {
            out.push(c.opacity);
        } else {
            out.push(c.color_dc[0]);
            out.push(c.color_dc[1]);
            out.push(c.color_dc[2]);
        }
        proof {
            assert(out@ =~= before + code_bytes(c, which as int));
            let t = codes@.take(i + 1);
            assert(t.drop_last() == codes@.take(i as int));
            assert(t.last() == codes@[i as int]);
        }
        i += 1;
    }
    assert(codes@.take(codes@.len() as int) == codes@);
}

/// Zero-pads `out` to a multiple of four bytes.
fn pad4_zero(out: &mut Vec<u8>)
    requires
        old(out)@.len() + 3 <= usize::MAX,
    ensures
        final(out)@ == padded4(old(out)@, 0u8),
{
    assert(4usize & ((4usize - 1) as usize) == 0) by (bit_vector);
    pad_to(out, 4);
    assert(out@ =~= padded4(old(out)@, 0u8));
}

/// The quantized buffer of a chunk, from its splats (for the FLOAT rotation
/// and SH sections) and their integer codes.
pub fn pack_chunk_quantized(chunk: &[SplatBits], codes: &[QuantCodes]) -> (r: Vec<u8>)
    requires
        dc_present(chunk@),
        codes@.len() == chunk@.len(),
        layout_fits(chunk@.len() as int),
    ensures
        r@ == quantized_chunk_bytes(chunk@, codes@),
{
    let ghost n = chunk@.len() as int;
    let mut has_sh = false;
    let mut i: usize = 0;
    while i < chunk.len()
        invariant
            i <= chunk@.len(),
            has_sh == exists|j: int| 0 <= j < i && #[trigger] chunk@[j].color is Sh,
        decreases chunk@.len() - i,
    {
        match &chunk[i].color {
            ColorBits::Sh { .. } => {
                has_sh = true;
            },
            ColorBits::Rgb(_) => {},
        }
        i += 1;
    }
    proof {
        lemma_codes_section_len(codes@, 0);
        lemma_codes_section_len(codes@, 2);
        lemma_codes_section_len(codes@, 3);
        lemma_codes_section_len(codes@, 4);
        lemma_section_len(chunk@, 1);
        lemma_section_len(chunk@, 5);
    }
    let mut out: Vec<u8> = Vec::new();
    push_codes(&mut out, codes, 0);
    let ghost s0 = out@;
    pad4_zero(&mut out);
    proof { lemma_round_up4(s0.len() as int); }
    push_section(&mut out, chunk, 1);
    push_codes(&mut out, codes, 2);
    let ghost s1 = out@;
    pad4_zero(&mut out);
    proof { lemma_round_up4(s1.len() as int); }
    push_codes(&mut out, codes, 3);
    let ghost s2 = out@;
    pad4_zero(&mut out);
    proof { lemma_round_up4(s2.len() as int); }
    push_codes(&mut out, codes, 4);
    let ghost s3 = out@;
    pad4_zero(&mut out);
    proof { lemma_round_up4(s3.len() as int); }
    if has_sh {
        push_section(&mut out, chunk, 5);
    }
    out
}

// ---------- views over packed buffers ----------

/// The bytes of `b` a view covers.
pub open spec fn view_bytes(b: Seq<u8>, v: BufferView) -> Seq<u8> {
    b.subrange(v.byte_offset as int, v.byte_offset + v.byte_length)
}

/// The views the FLOAT emitter lays out for `chunk` in buffer `buffer`.
pub open spec fn float_views(chunk: Seq<SplatBits>, buffer: usize) -> Seq<BufferView> {
    planned_views(buffer, float_spans(chunk.len() as int, any_sh(chunk)))
}

/// The views the quantized emitter lays out for `chunk` in buffer `buffer`.
pub open spec fn quantized_views(chunk: Seq<SplatBits>, buffer: usize) -> Seq<BufferView> {
    planned_views(buffer, quantized_spans(chunk.len() as int, any_sh(chunk)))
}

/// The bytes quantized attribute `k` holds: FLOAT rotation and SH, integer
/// codes for the others.
pub open spec fn quant_section(chunk: Seq<SplatBits>, codes: Seq<QuantCodes>, k: int) -> Seq<u8> {
    if k == 1 || k == 5 {
        section_bytes(chunk, k)
    } else {
        codes_section(codes, k)
    }
}

/// Each view the FLOAT emitter lays out for a chunk covers exactly that
/// attribute's section of the chunk's FLOAT buffer, and the last view ends
/// where the buffer ends.
pub proof fn lemma_float_views_cover(chunk: Seq<SplatBits>, buffer: usize)
    requires
        dc_present(chunk),
        layout_fits(chunk.len() as int),
    ensures
        forall|k: int|
            0 <= k < float_views(chunk, buffer).len() ==> view_bytes(float_chunk_bytes(chunk), #[trigger] float_views(chunk, buffer)[k])
                == section_bytes(chunk, k),
        float_chunk_bytes(chunk).len() == float_views(chunk, buffer).last().byte_offset + float_views(
            chunk,
            buffer,
        ).last().byte_length,
{
    let n = chunk.len() as int;
    let b = float_chunk_bytes(chunk);
    let views = float_views(chunk, buffer);
    let sh = any_sh(chunk);
    lemma_section_len(chunk, 0);
    lemma_section_len(chunk, 1);
    lemma_section_len(chunk, 2);
    lemma_section_len(chunk, 3);
    lemma_section_len(chunk, 4);
    lemma_section_len(chunk, 5);
    let s0 = section_bytes(chunk, 0);
    let s1 = section_bytes(chunk, 1);
    let s2 = section_bytes(chunk, 2);
    let s3 = section_bytes(chunk, 3);
    let s4 = section_bytes(chunk, 4);
    let s5 = section_bytes(chunk, 5);
    let head = s0 + s1 + s2 + s3 + s4;
    assert(b == head + if sh { s5 } else { Seq::<u8>::empty() });
    assert(views[0] == view_of(buffer, 0, 12 * n));
    assert(views[1] == view_of(buffer, 12 * n, 16 * n));
    assert(views[2] == view_of(buffer, 28 * n, 12 * n));
    assert(views[3] == view_of(buffer, 40 * n, 4 * n));
    assert(views[4] == view_of(buffer, 44 * n, 12 * n));
    assert(b.subrange(0, 12 * n) =~= s0);
    assert(b.subrange(12 * n, 28 * n) =~= s1);
    assert(b.subrange(28 * n, 40 * n) =~= s2);
    assert(b.subrange(40 * n, 44 * n) =~= s3);
    assert(b.subrange(44 * n, 56 * n) =~= s4);
    if sh {
        assert(views[5] == view_of(buffer, 56 * n, 180 * n));
        assert(b.subrange(56 * n, 236 * n) =~= s5);
    }
    assert forall|k: int| 0 <= k < views.len() implies view_bytes(b, #[trigger] views[k]) == section_bytes(chunk, k) by {
        if k == 0 {
        } else if k == 1 {
        } else if k == 2 {
        } else if k == 3 {
        } else if k == 4 {
        } else {
        }
    }
}

/// Each view the quantized emitter lays out for a chunk covers exactly that
/// attribute's section of the chunk's quantized buffer; the buffer ends with
/// the SH view, or with the zero padding after the DC color view.
#[verifier::spinoff_prover]
#[verifier::rlimit(60)]
pub proof fn lemma_quantized_views_cover(chunk: Seq<SplatBits>, codes: Seq<QuantCodes>, buffer: usize)
    requires
        dc_present(chunk),
        codes.len() == chunk.len(),
        layout_fits(chunk.len() as int),
    ensures
        forall|k: int|
            0 <= k < quantized_views(chunk, buffer).len() ==> view_bytes(
                quantized_chunk_bytes(chunk, codes),
                #[trigger] quantized_views(chunk, buffer)[k],
            ) == quant_section(chunk, codes, k),
        any_sh(chunk) ==> quantized_chunk_bytes(chunk, codes).len() == quantized_views(chunk, buffer).last().byte_offset
            + quantized_views(chunk, buffer).last().byte_length,
        !any_sh(chunk) ==> quantized_chunk_bytes(chunk, codes).len() == round_up(
            quantized_views(chunk, buffer).last().byte_offset + quantized_views(chunk, buffer).last().byte_length,
            4,
        ),
{
    let n = chunk.len() as int;
    let b = quantized_chunk_bytes(chunk, codes);
    let views = quantized_views(chunk, buffer);
    let sh = any_sh(chunk);
    let o = quant_offsets(n);
    lemma_codes_section_len(codes, 0);
    lemma_codes_section_len(codes, 2);
    lemma_codes_section_len(codes, 3);
    lemma_codes_section_len(codes, 4);
    lemma_section_len(chunk, 1);
    lemma_section_len(chunk, 5);
    lemma_round_up4(6 * n);
    lemma_round_up4(o[2] + 3 * n);
    lemma_round_up4(o[3] + n);
    lemma_round_up4(o[4] + 3 * n);
    let c0 = codes_section(codes, 0);
    let s1 = section_bytes(chunk, 1);
    let c2 = codes_section(codes, 2);
    let c3 = codes_section(codes, 3);
    let c4 = codes_section(codes, 4);
    let s5 = section_bytes(chunk, 5);
    let a = padded4(c0, 0u8);
    let pb = padded4(a + s1 + c2, 0u8);
    let pc = padded4(pb + c3, 0u8);
    let pd = padded4(pc + c4, 0u8);
    assert(a.len() == o[1]);
    assert(pb.len() == o[3]);
    assert(pc.len() == o[4]);
    assert(pd.len() == o[5]);
    assert(b == if sh { pd + s5 } else { pd });
    assert(views[0] == view_of(buffer, o[0], 6 * n));
    assert(views[1] == view_of(buffer, o[1], 16 * n));
    assert(views[2] == view_of(buffer, o[2], 3 * n));
    assert(views[3] == view_of(buffer, o[3], n));
    assert(views[4] == view_of(buffer, o[4], 3 * n));
    assert(b.subrange(0, 6 * n) =~= c0);
    assert(b.subrange(o[1], o[1] + 16 * n) =~= s1);
    assert(b.subrange(o[2], o[2] + 3 * n) =~= c2);
    assert(b.subrange(o[3], o[3] + n) =~= c3);
    assert(b.subrange(o[4], o[4] + 3 * n) =~= c4);
    if sh {
        assert(views[5] == view_of(buffer, o[5], 180 * n));
        assert(b.subrange(o[5], o[5] + 180 * n) =~= s5);
    }
    assert forall|k: int| 0 <= k < views.len() implies view_bytes(b, #[trigger] views[k]) == quant_section(chunk, codes, k) by {
        if k == 0 {
        } else if k == 1 {
        } else if k == 2 {
        } else if k == 3 {
        } else if k == 4 {
        } else {
        }
    }
}

// ---------- SH degree ----------

/// The largest of `degrees`, 0 for none.
pub open spec fn max_degree(degrees: Seq<u8>) -> u8
    decreases degrees.len(),
{
    if degrees.len() == 0 {
        0
    } else if max_degree(degrees.drop_last()) < degrees.last() {
        degrees.last()
    } else {
        max_degree(degrees.drop_last())
    }
}

/// The SH degree a primitive declares: the largest degree of its splats.
pub fn scene_sh_degree(degrees: &[u8]) -> (r: u8)
    ensures
        r == max_degree(degrees@),
{
    let mut best: u8 = 0;
    let mut i: usize = 0;
    while i < degrees.len()
        invariant
            i <= degrees@.len(),
            best == max_degree(degrees@.take(i as int)),
        decreases degrees@.len() - i,
    {
        proof {
            let t = degrees@.take(i + 1);
            assert(t.drop_last() == degrees@.take(i as int));
            assert(t.last() == degrees@[i as int]);
        }
        if best < degrees[i] {
            best = degrees[i];
        }
        i += 1;
    }
    assert(degrees@.take(degrees@.len() as int) == degrees@);
    best
}

// ---------- SPZ-compressed documents ----------

/// The accessors of an SPZ-compressed primitive: one per base attribute,
/// FLOAT, zero elements, each over its own empty view `1 + k`.
pub open spec fn spz_placeholder_accessors() -> Seq<Accessor> {
    Seq::new(5, |k: int| accessor_of(k + 1, FLOAT, 0, attr_type(k)))
}

/// The views and accessors of an SPZ-compressed GLB: view 0 covers the
/// whole SPZ blob, views 1 to 5 are empty and back zero-count placeholder
/// accessors for position, rotation, scale, opacity and DC color. Returns
/// the table, the blob's view and the five accessor indices.
pub fn spz_placeholder_table(blob_len: usize) -> (r: (AccessorTable, usize, (usize, usize, usize, usize, usize)))
    ensures
        r.0.buffer_views@ == seq![view_of(0, 0, blob_len as int)] + Seq::new(5, |k: int| view_of(0, 0, 0)),
        r.0.accessors@ == spz_placeholder_accessors(),
        r.1 == 0,
        r.2 == (0usize, 1usize, 2usize, 3usize, 4usize),
{
    let mut table = AccessorTable::new();
    table.buffer_views.push(BufferView { buffer: 0, byte_offset: 0, byte_length: blob_len });
    let mut k: usize = 0;
    while k < 5
        invariant
            k <= 5,
            table.buffer_views@ == seq![view_of(0, 0, blob_len as int)] + Seq::new(k as nat, |j: int| view_of(0, 0, 0)),
            table.accessors@.len() == 0,
        decreases 5 - k,
    {
        table.buffer_views.push(BufferView { buffer: 0, byte_offset: 0, byte_length: 0 });
        k += 1;
        assert(table.buffer_views@ =~= seq![view_of(0, 0, blob_len as int)] + Seq::new(k as nat, |j: int| view_of(0, 0, 0)));
    }
    table.accessors.push(Accessor { buffer_view: 1, component_type: FLOAT, count: 0, accessor_type: AccessorType::Vec3, normalized: false });
    table.accessors.push(Accessor { buffer_view: 2, component_type: FLOAT, count: 0, accessor_type: AccessorType::Vec4, normalized: false });
    table.accessors.push(Accessor { buffer_view: 3, component_type: FLOAT, count: 0, accessor_type: AccessorType::Vec3, normalized: false });
    table.accessors.push(Accessor { buffer_view: 4, component_type: FLOAT, count: 0, accessor_type: AccessorType::Scalar, normalized: false });
    table.accessors.push(Accessor { buffer_view: 5, component_type: FLOAT, count: 0, accessor_type: AccessorType::Vec3, normalized: false });
    assert(table.accessors@ =~= spz_placeholder_accessors());
    (table, 0, (0, 1, 2, 3, 4))
}

// ---------- reading attributes back ----------

/// The view behind accessor `acc`.
pub open spec fn acc_view(table: AccessorTable, acc: int) -> BufferView {
    table.buffer_views@[table.accessors@[acc].buffer_view as int]
}

/// `r` is `Malformed` with message `m`.
pub open spec fn malformed_with<T>(r: Result<T, GltfError>, m: Seq<char>) -> bool {
    r matches Err(GltfError::Malformed(s)) && s@ == m
}

/// The byte range `[start, end)` of the GLB BIN chunk that accessor
/// `acc_idx` reads: its view must lie in buffer 0 and within the
/// `bin_len` bytes of the chunk.
pub fn accessor_view_range(table: &AccessorTable, acc_idx: usize, bin_len: usize) -> (r: Result<(usize, usize), GltfError>)
    requires
        acc_idx < table.accessors@.len(),
        table.accessors@[acc_idx as int].buffer_view < table.buffer_views@.len(),
    ensures
        acc_view(*table, acc_idx as int).buffer != 0 ==> malformed_with(r, "GLB only supports buffer 0"@),
        acc_view(*table, acc_idx as int).buffer == 0 && acc_view(*table, acc_idx as int).byte_offset + acc_view(
            *table,
            acc_idx as int,
        ).byte_length > bin_len ==> malformed_with(r, "accessor out of range"@),
        acc_view(*table, acc_idx as int).buffer == 0 && acc_view(*table, acc_idx as int).byte_offset + acc_view(
            *table,
            acc_idx as int,
        ).byte_length <= bin_len ==> r == Ok::<(usize, usize), GltfError>(
            (
                acc_view(*table, acc_idx as int).byte_offset,
                (acc_view(*table, acc_idx as int).byte_offset + acc_view(*table, acc_idx as int).byte_length) as usize,
            ),
        ),
{
    let acc = table.accessors[acc_idx];
    let bv = table.buffer_views[acc.buffer_view];
    if bv.buffer != 0 {
        return Err(GltfError::Malformed(lit("GLB only supports buffer 0")));
    }
    if bv.byte_offset > bin_len || bv.byte_length > bin_len - bv.byte_offset {
        return Err(GltfError::Malformed(lit("accessor out of range")));
    }
    Ok((bv.byte_offset, bv.byte_offset + bv.byte_length))
}

/// The message for a missing SPZ buffer view.
pub open spec fn spz_view_missing(i: nat) -> Seq<char> {
    "SPZ bufferView "@ + decimal(i) + " out of range"@
}

/// The byte range `[start, end)` of the GLB BIN chunk that holds the SPZ
/// blob of view `bv_idx`.
pub fn spz_view_range(table: &AccessorTable, bv_idx: usize, bin_len: usize) -> (r: Result<(usize, usize), GltfError>)
    ensures
        bv_idx >= table.buffer_views@.len() ==> malformed_with(r, spz_view_missing(bv_idx as nat)),
        bv_idx < table.buffer_views@.len() ==> {
            let v = table.buffer_views@[bv_idx as int];
            &&& v.buffer != 0 ==> malformed_with(r, "SPZ GLB only supports buffer 0"@)
            &&& v.buffer == 0 && v.byte_offset + v.byte_length > bin_len ==> malformed_with(
                r,
                "SPZ bufferView exceeds BIN chunk"@,
            )
            &&& v.buffer == 0 && v.byte_offset + v.byte_length <= bin_len ==> r == Ok::<(usize, usize), GltfError>(
                (v.byte_offset, (v.byte_offset + v.byte_length) as usize),
            )
        },
{
    if bv_idx >= table.buffer_views.len() {
        let mut m = lit("SPZ bufferView ");
        push_decimal(&mut m, bv_idx as u64);
        crate::text::append_str(&mut m, " out of range");
        return Err(GltfError::Malformed(m));
    }
    let bv = table.buffer_views[bv_idx];
    if bv.buffer != 0 {
        return Err(GltfError::Malformed(lit("SPZ GLB only supports buffer 0")));
    }
    if bv.byte_offset > bin_len || bv.byte_length > bin_len - bv.byte_offset {
        return Err(GltfError::Malformed(lit("SPZ bufferView exceeds BIN chunk")));
    }
    Ok((bv.byte_offset, bv.byte_offset + bv.byte_length))
}

/// The raw components an accessor holds, before any float conversion or
/// dequantization.
#[derive(Debug, Clone)]
pub enum AccessorWords {
    /// FLOAT components, as their bit patterns.
    Float(Vec<u32>),
    /// UNSIGNED_SHORT components.
    Short(Vec<u16>),
    /// UNSIGNED_BYTE components.
    Byte(Vec<u8>),
}

/// The `k` little-endian `u16` values stored from the start of `b`.
pub open spec fn halfwords_at(b: Seq<u8>, k: int) -> Seq<u16> {
    Seq::new(k as nat, |i: int| le_u16(b, 2 * i) as u16)
}

/// The message for an unsupported component type.
pub open spec fn unsupported_component(t: u32) -> Seq<char> {
    "unsupported componentType "@ + decimal(t as nat)
}

/// What decoding `acc.count * comps` components from `bytes` gives.
pub open spec fn decoded_words(bytes: Seq<u8>, acc: Accessor, comps: int, r: Result<AccessorWords, GltfError>) -> bool {
    let total = acc.count * comps;
    if acc.component_type == FLOAT {
        if bytes.len() < 4 * total {
            malformed_with(r, "accessor under-sized"@)
        } else {
            r matches Ok(AccessorWords::Float(w)) && w@ == words_at(bytes, 0, total)
        }
    } else if acc.component_type == USHORT {
        if bytes.len() < 2 * total {
            malformed_with(r, "u16 accessor under-sized"@)
        } else {
            r matches Ok(AccessorWords::Short(h)) && h@ == halfwords_at(bytes, total)
        }
    } else if acc.component_type == UBYTE {
        if bytes.len() < total {
            malformed_with(r, "u8 accessor under-sized"@)
        } else {
            r matches Ok(AccessorWords::Byte(v)) && v@ == bytes.take(total)
        }
    } else {
        malformed_with(r, unsupported_component(acc.component_type))
    }
}

/// The `acc.count * comps` components of an accessor read from the bytes of
/// its view: FLOAT bit patterns, u16 or u8 values, or an error when the
/// view is too short or the component type unknown.
pub fn decode_accessor_words(bytes: &[u8], acc: &Accessor, comps: usize) -> (r: Result<AccessorWords, GltfError>)
    requires
        acc.count * comps * 4 <= usize::MAX,
    ensures
        decoded_words(bytes@, *acc, comps as int, r),
{
    let total = acc.count * comps;
    if acc.component_type == FLOAT {
        if bytes.len() < total * 4 {
            return Err(GltfError::Malformed(lit("accessor under-sized")));
        }
        Ok(AccessorWords::Float(read_words(bytes, 0, total)))
    } else if acc.component_type == USHORT {
        if bytes.len() < total * 2 {
            return Err(GltfError::Malformed(lit("u16 accessor under-sized")));
        }
        let mut out: Vec<u16> = Vec::new();
        let mut i: usize = 0;
        while i < total
            invariant
                i <= total,
                2 * total <= bytes@.len(),
                total * 4 <= usize::MAX,
                out@ == halfwords_at(bytes@, i as int),
            decreases total - i,
        {
            out.push(read_u16_le(bytes, 2 * i));
            i += 1;
            assert(out@ =~= halfwords_at(bytes@, i as int));
        }
        Ok(AccessorWords::Short(out))
    } else if acc.component_type == UBYTE {
        if bytes.len() < total {
            return Err(GltfError::Malformed(lit("u8 accessor under-sized")));
        }
        let v = copy_range(bytes, 0, total);
        assert(v@ =~= bytes@.take(total as int));
        Ok(AccessorWords::Byte(v))
    } else {
        let mut m = lit("unsupported componentType ");
        push_decimal(&mut m, acc.component_type as u64);
        Err(GltfError::Malformed(m))
    }
}

// ---------- reading back what was written ----------

/// Components per element the reader asks of attribute `k`.
pub open spec fn attr_comps(k: int) -> int {
    if k == 1 {
        4
    } else if k == 3 {
        1
    } else if k >= 5 {
        45
    } else {
        3
    }
}

/// The values of attribute `which` for all splats of `chunk`, in order.
pub open spec fn attr_flat(chunk: Seq<SplatBits>, which: int) -> Seq<u32>
    decreases chunk.len(),
{
    if chunk.len() == 0 {
        Seq::empty()
    } else {
        attr_flat(chunk.drop_last(), which) + attr_words(chunk.last(), which)
    }
}

/// A FLOAT section is the little-endian bytes of the attribute's values.
pub proof fn lemma_section_words(chunk: Seq<SplatBits>, which: int)
    requires
        dc_present(chunk),
        0 <= which <= 5,
    ensures
        section_bytes(chunk, which) == words_le(attr_flat(chunk, which)),
        attr_flat(chunk, which).len() == attr_comps(which) * chunk.len(),
    decreases chunk.len(),
{
    if chunk.len() > 0 {
        let init = chunk.drop_last();
        assert forall|i: int| 0 <= i < init.len() implies (#[trigger] init[i].color matches ColorBits::Sh { coeffs, .. } ==> coeffs@.len() >= 3) by {
            assert(init[i] == chunk[i]);
        }
        lemma_section_words(init, which);
        let s = chunk.last();
        assert(s == chunk[chunk.len() - 1]);
        lemma_words_le_concat(attr_flat(init, which), attr_words(s, which));
        assert(attr_words(s, which).len() == attr_comps(which));
        assert(attr_comps(which) * chunk.len() == attr_comps(which) * init.len() + attr_comps(which)) by (nonlinear_arith)
            requires
                chunk.len() == init.len() + 1,
        ;
    }
}

/// Every attribute the FLOAT emitter lays out for a chunk decodes, from the
/// chunk's FLOAT buffer, to exactly the splats' values of that attribute.
pub proof fn lemma_float_attribute_roundtrip(
    chunk: Seq<SplatBits>,
    buffer: usize,
    first_view: int,
    k: int,
    r: Result<AccessorWords, GltfError>,
)
    requires
        dc_present(chunk),
        layout_fits(chunk.len() as int),
        0 <= k < float_views(chunk, buffer).len(),
        decoded_words(
            view_bytes(float_chunk_bytes(chunk), float_views(chunk, buffer)[k]),
            planned_accessors(first_view, chunk.len() as usize, false, float_views(chunk, buffer).len())[k],
            attr_comps(k),
            r,
        ),
    ensures
        r matches Ok(AccessorWords::Float(w)) && w@ == attr_flat(chunk, k),
{
    let n = chunk.len() as int;
    lemma_float_views_cover(chunk, buffer);
    let views = float_views(chunk, buffer);
    assert(view_bytes(float_chunk_bytes(chunk), views[k]) == section_bytes(chunk, k));
    lemma_section_words(chunk, k);
    let v = attr_flat(chunk, k);
    lemma_words_roundtrip(v, Seq::empty(), Seq::empty());
    assert(Seq::<u8>::empty() + words_le(v) + Seq::<u8>::empty() =~= words_le(v));
    let acc = planned_accessors(first_view, chunk.len() as usize, false, views.len())[k];
    assert(acc.count == n);
    assert(acc.component_type == FLOAT);
    assert(acc.count * attr_comps(k) == v.len()) by (nonlinear_arith)
        requires
            acc.count == n,
            v.len() == attr_comps(k) * n,
    ;
}

/// The quantized positions of all splats, component by component.
pub open spec fn pos_flat(codes: Seq<QuantCodes>) -> Seq<u16>
    decreases codes.len(),
{
    if codes.len() == 0 {
        Seq::empty()
    } else {
        pos_flat(codes.drop_last()) + codes.last().position@
    }
}

/// Sections of a concatenation are the concatenated sections.
pub proof fn lemma_codes_section_concat(a: Seq<QuantCodes>, b: Seq<QuantCodes>, which: int)
    ensures
        codes_section(a + b, which) == codes_section(a, which) + codes_section(b, which),
        pos_flat(a + b) == pos_flat(a) + pos_flat(b),
    decreases b.len(),
{
    if b.len() == 0 {
        assert(a + b =~= a);
        assert(codes_section(a, which) + codes_section(b, which) =~= codes_section(a, which));
        assert(pos_flat(a) + pos_flat(b) =~= pos_flat(a));
    } else {
        assert((a + b).drop_last() =~= a + b.drop_last());
        assert((a + b).last() == b.last());
        lemma_codes_section_concat(a, b.drop_last(), which);
        assert(codes_section(a, which) + codes_section(b, which) =~= codes_section(a, which) + codes_section(
            b.drop_last(),
            which,
        ) + code_bytes(b.last(), which));
        assert(pos_flat(a) + pos_flat(b) =~= pos_flat(a) + pos_flat(b.drop_last()) + b.last().position@);
    }
}

/// Three positions per splat.
pub proof fn lemma_pos_flat_len(codes: Seq<QuantCodes>)
    ensures
        pos_flat(codes).len() == 3 * codes.len(),
    decreases codes.len(),
{
    if codes.len() > 0 {
        lemma_pos_flat_len(codes.drop_last());
    }
}

/// The position bytes and values of splat `j` sit at `6 * j` and `3 * j`.
pub proof fn lemma_codes_at(codes: Seq<QuantCodes>, j: int)
    requires
        0 <= j < codes.len(),
    ensures
        codes_section(codes, 0).subrange(6 * j, 6 * j + 6) == code_bytes(codes[j], 0),
        pos_flat(codes).subrange(3 * j, 3 * j + 3) == codes[j].position@,
{
    let a = codes.take(j);
    let one = seq![codes[j]];
    let rest = codes.skip(j + 1);
    assert(codes =~= a + one + rest);
    lemma_codes_section_concat(a + one, rest, 0);
    lemma_codes_section_concat(a, one, 0);
    lemma_codes_section_len(a, 0);
    lemma_pos_flat_len(a);
    assert(one.drop_last() =~= Seq::<QuantCodes>::empty());
    assert(one.last() == codes[j]);
    assert(codes_section(one.drop_last(), 0) =~= Seq::<u8>::empty());
    assert(codes_section(one, 0) =~= code_bytes(codes[j], 0));
    assert(pos_flat(one.drop_last()) =~= Seq::<u16>::empty());
    assert(pos_flat(one) =~= codes[j].position@);
    assert(codes_section(codes, 0).subrange(6 * j, 6 * j + 6) =~= code_bytes(codes[j], 0));
    assert(pos_flat(codes).subrange(3 * j, 3 * j + 3) =~= codes[j].position@);
}

/// Reading the position section back as little-endian `u16` values gives
/// the quantized positions.
pub proof fn lemma_pos_roundtrip(codes: Seq<QuantCodes>)
    ensures
        halfwords_at(codes_section(codes, 0), 3 * codes.len() as int) == pos_flat(codes),
{
    let sec = codes_section(codes, 0);
    let total = 3 * codes.len() as int;
    lemma_pos_flat_len(codes);
    lemma_codes_section_len(codes, 0);
    assert forall|i: int| 0 <= i < total implies #[trigger] halfwords_at(sec, total)[i] == pos_flat(codes)[i] by {
        vstd::arithmetic::div_mod::lemma_fundamental_div_mod(i, 3);
        let j = i / 3;
        let c = i % 3;
        assert(0 <= j < codes.len());
        lemma_codes_at(codes, j);
        let p = codes[j].position[c];
        let cb = code_bytes(codes[j], 0);
        assert(sec[6 * j + 2 * c] == cb[2 * c]);
        assert(sec[6 * j + 2 * c + 1] == cb[2 * c + 1]);
        assert(cb[2 * c] == (p % 256) as u8);
        assert(cb[2 * c + 1] == (p / 256) as u8);
        assert(pos_flat(codes)[i] == codes[j].position@[c]);
        assert(2 * i == 6 * j + 2 * c);
    }
    assert(halfwords_at(sec, total) =~= pos_flat(codes));
}

/// Every attribute the quantized emitter lays out for a chunk decodes, from
/// the chunk's quantized buffer, to exactly what was written: the u16
/// position codes, the FLOAT rotations, the u8 scale, opacity and DC codes,
/// and the FLOAT SH coefficients.
pub proof fn lemma_quantized_attribute_roundtrip(
    chunk: Seq<SplatBits>,
    codes: Seq<QuantCodes>,
    buffer: usize,
    first_view: int,
    k: int,
    r: Result<AccessorWords, GltfError>,
)
    requires
        dc_present(chunk),
        codes.len() == chunk.len(),
        layout_fits(chunk.len() as int),
        0 <= k < quantized_views(chunk, buffer).len(),
        decoded_words(
            view_bytes(quantized_chunk_bytes(chunk, codes), quantized_views(chunk, buffer)[k]),
            planned_accessors(first_view, chunk.len() as usize, true, quantized_views(chunk, buffer).len())[k],
            attr_comps(k),
            r,
        ),
    ensures
        k == 0 ==> (r matches Ok(AccessorWords::Short(h)) && h@ == pos_flat(codes)),
        (k == 1 || k == 5) ==> (r matches Ok(AccessorWords::Float(w)) && w@ == attr_flat(chunk, k)),
        (k == 2 || k == 3 || k == 4) ==> (r matches Ok(AccessorWords::Byte(b)) && b@ == codes_section(codes, k)),
{
    let n = chunk.len() as int;
    lemma_quantized_views_cover(chunk, codes, buffer);
    let views = quantized_views(chunk, buffer);
    let bytes = view_bytes(quantized_chunk_bytes(chunk, codes), views[k]);
    assert(bytes == quant_section(chunk, codes, k));
    let acc = planned_accessors(first_view, chunk.len() as usize, true, views.len())[k];
    assert(acc.count == n);
    lemma_codes_section_len(codes, k);
    if k == 0 {
        assert(acc.component_type == USHORT);
        assert(acc.count * attr_comps(k) == 3 * n);
        lemma_pos_roundtrip(codes);
    } else if k == 1 || k == 5 {
        assert(acc.component_type == FLOAT);
        lemma_section_words(chunk, k);
        let v = attr_flat(chunk, k);
        lemma_words_roundtrip(v, Seq::empty(), Seq::empty());
        assert(Seq::<u8>::empty() + words_le(v) + Seq::<u8>::empty() =~= words_le(v));
        assert(acc.count * attr_comps(k) == v.len()) by (nonlinear_arith)
            requires
                acc.count == n,
                v.len() == attr_comps(k) * n,
        ;
    } else {
        assert(acc.component_type == UBYTE);
        assert(acc.count * attr_comps(k) == bytes.len());
        assert(bytes.take(bytes.len() as int) =~= bytes);
    }
}

// ---------- document-level declarations ----------

/// Name of the mesh quantization extension.
pub open spec fn khr_quant_name() -> Seq<char> {
    "KHR_mesh_quantization"@
}

/// Name of the SPZ compression extension.
pub open spec fn khr_spz_name() -> Seq<char> {
    "KHR_gaussian_splatting_compression_spz"@
}

/// The extensions a written document declares as used: the Gaussian
/// splatting extension, the streaming index when chunked, and mesh
/// quantization when quantized.
pub open spec fn used_extensions(chunked: bool, quantize: bool) -> Seq<Seq<char>> {
    let a = seq![khr_name()];
    let b = if chunked {
        a.push(sf_index_name())
    } else {
        a
    };
    if quantize {
        b.push(khr_quant_name())
    } else {
        b
    }
}

/// The views of a list of names.
pub open spec fn names_of(v: Seq<String>) -> Seq<Seq<char>> {
    v.map_values(|s: String| s@)
}

/// The `extensionsUsed` list of a written document.
pub fn extensions_used(chunked: bool, quantize: bool) -> (r: Vec<String>)
    ensures
        names_of(r@) == used_extensions(chunked, quantize),
{
    let mut v: Vec<String> = Vec::new();
    v.push(lit("KHR_gaussian_splatting"));
    if chunked {
        v.push(lit("SF_spatial_streaming_index"));
    }
    if quantize {
        v.push(lit("KHR_mesh_quantization"));
    }
    assert(names_of(v@) =~= used_extensions(chunked, quantize));
    v
}

/// The `extensionsUsed` and `extensionsRequired` list of an SPZ-compressed
/// document: the Gaussian splatting extension and its SPZ compression.
pub fn spz_extensions() -> (r: Vec<String>)
    ensures
        names_of(r@) == seq![khr_name(), khr_spz_name()],
{
    let mut v: Vec<String> = Vec::new();
    v.push(lit("KHR_gaussian_splatting"));
    v.push(lit("KHR_gaussian_splatting_compression_spz"));
    assert(names_of(v@) =~= seq![khr_name(), khr_spz_name()]);
    v
}

/// Whether some splat of the chunk carries SH coefficients.
pub fn chunk_has_sh(chunk: &[SplatBits]) -> (r: bool)
    ensures
        r == any_sh(chunk@),
{
    let mut i: usize = 0;
    while i < chunk.len()
        invariant
            i <= chunk@.len(),
            forall|j: int| 0 <= j < i ==> !(#[trigger] chunk@[j].color is Sh),
        decreases chunk@.len() - i,
    {
        if let ColorBits::Sh { .. } = &chunk[i].color {
            return true;
        }
        i += 1;
    }
    false
}

// ---------- splats from decoded attributes ----------

/// The fields of a splat as plain values: position, rotation, scale,
/// opacity, and the color as (is SH, degree, coefficients).
pub open spec fn splat_view(s: SplatBits) -> (Seq<u32>, Seq<u32>, Seq<u32>, u32, (bool, u8, Seq<u32>)) {
    (
        s.position@,
        s.rotation@,
        s.scale@,
        s.opacity,
        match s.color {
            ColorBits::Rgb(a) => (false, 0u8, a@),
            ColorBits::Sh { degree, coeffs } => (true, degree, coeffs@),
        },
    )
}

/// Splat `i` rebuilt from the decoded attribute values: an SH color of
/// degree 3 (DC then 45 coefficients) when an SH attribute is present,
/// else an RGB color.
pub open spec fn read_back_view(
    p: Seq<u32>,
    r: Seq<u32>,
    s: Seq<u32>,
    o: Seq<u32>,
    d: Seq<u32>,
    sh: Option<Seq<u32>>,
    i: int,
) -> (Seq<u32>, Seq<u32>, Seq<u32>, u32, (bool, u8, Seq<u32>)) {
    (
        p.subrange(3 * i, 3 * i + 3),
        r.subrange(4 * i, 4 * i + 4),
        s.subrange(3 * i, 3 * i + 3),
        o[i],
        match sh {
            Some(h) => (true, 3u8, d.subrange(3 * i, 3 * i + 3) + h.subrange(45 * i, 45 * i + 45)),
            None => (false, 0u8, d.subrange(3 * i, 3 * i + 3)),
        },
    )
}

/// The view of an optional attribute.
pub open spec fn opt_view(sh: Option<Vec<u32>>) -> Option<Seq<u32>> {
    match sh {
        Some(h) => Some(h@),
        None => None,
    }
}

/// The splats of a primitive, one per opacity value, from the decoded
/// values of its attributes (every `f32` as its bit pattern).
pub fn assemble_splats(
    pos: &[u32],
    rot: &[u32],
    scale: &[u32],
    op: &[u32],
    dc: &[u32],
    sh: &Option<Vec<u32>>,
) -> (r: Vec<SplatBits>)
    requires
        pos@.len() >= 3 * op@.len(),
        rot@.len() >= 4 * op@.len(),
        scale@.len() >= 3 * op@.len(),
        dc@.len() >= 3 * op@.len(),
        sh matches Some(h) ==> h@.len() >= 45 * op@.len(),
    ensures
        r@.len() == op@.len(),
        forall|i: int|
            0 <= i < op@.len() ==> splat_view(#[trigger] r@[i]) == read_back_view(
                pos@,
                rot@,
                scale@,
                op@,
                dc@,
                opt_view(*sh),
                i,
            ),
{
    let n = op.len();
    let _pl = pos.len();
    let _rl = rot.len();
    let _sl = scale.len();
    let _dl = dc.len();
    if let Some(h) = sh {
        let _hl = h.len();
    }
    let mut out: Vec<SplatBits> = Vec::new();
    let mut i: usize = 0;
    while i < n
        invariant
            i <= n,
            n == op@.len(),
            pos@.len() >= 3 * n,
            rot@.len() >= 4 * n,
            scale@.len() >= 3 * n,
            dc@.len() >= 3 * n,
            sh matches Some(h) ==> h@.len() >= 45 * n,
            sh matches Some(h) ==> h@.len() <= usize::MAX,
            pos@.len() <= usize::MAX,
            rot@.len() <= usize::MAX,
            scale@.len() <= usize::MAX,
            dc@.len() <= usize::MAX,
            out@.len() == i,
            forall|j: int|
                0 <= j < i ==> splat_view(#[trigger] out@[j]) == read_back_view(
                    pos@,
                    rot@,
                    scale@,
                    op@,
                    dc@,
                    opt_view(*sh),
                    j,
                ),
        decreases n - i,
    {
        let d = [dc[3 * i], dc[3 * i + 1], dc[3 * i + 2]];
        let color = match sh {
            Some(h) => {
                let mut coeffs: Vec<u32> = Vec::new();
                coeffs.push(d[0]);
                coeffs.push(d[1]);
                coeffs.push(d[2]);
                let mut k: usize = 0;
                while k < 45
                    invariant
                        k <= 45,
                        i < n,
                        h@.len() >= 45 * n,
                        h@.len() <= usize::MAX,
                        coeffs@ == d@ + h@.subrange(45 * i, 45 * i + k),
                    decreases 45 - k,
                {
                    coeffs.push(h[45 * i + k]);
                    k += 1;
                    assert(coeffs@ =~= d@ + h@.subrange(45 * i, 45 * i + k));
                }
                ColorBits::Sh { degree: 3, coeffs }
            },
            None => ColorBits::Rgb(d),
        };
        let s = SplatBits {
            position: [pos[3 * i], pos[3 * i + 1], pos[3 * i + 2]],
            rotation: [rot[4 * i], rot[4 * i + 1], rot[4 * i + 2], rot[4 * i + 3]],
            scale: [scale[3 * i], scale[3 * i + 1], scale[3 * i + 2]],
            opacity: op[i],
            color,
        };
        proof {
            let want = read_back_view(pos@, rot@, scale@, op@, dc@, opt_view(*sh), i as int);
            assert(s.position@ =~= want.0);
            assert(s.rotation@ =~= want.1);
            assert(s.scale@ =~= want.2);
            assert(d@ =~= dc@.subrange(3 * i, 3 * i + 3));
            assert(splat_view(s) == want);
        }
        out.push(s);
        i += 1;
    }
    out
}

/// The values of splat `i` sit at `attr_comps(which) * i` in the
/// attribute's values.
pub proof fn lemma_attr_flat_at(chunk: Seq<SplatBits>, which: int, i: int)
    requires
        dc_present(chunk),
        0 <= which <= 5,
        0 <= i < chunk.len(),
    ensures
        attr_flat(chunk, which).subrange(attr_comps(which) * i, attr_comps(which) * i + attr_comps(which))
            == attr_words(chunk[i], which),
    decreases chunk.len(),
{
    let c = attr_comps(which);
    let init = chunk.drop_last();
    assert forall|j: int| 0 <= j < init.len() implies (#[trigger] init[j].color matches ColorBits::Sh { coeffs, .. } ==> coeffs@.len() >= 3) by {
        assert(init[j] == chunk[j]);
    }
    lemma_section_words(init, which);
    lemma_section_words(chunk, which);
    let f = attr_flat(chunk, which);
    let fi = attr_flat(init, which);
    assert(f == fi + attr_words(chunk.last(), which));
    assert(chunk.last() == chunk[chunk.len() - 1]);
    assert(attr_words(chunk[i], which).len() == c);
    if i == chunk.len() - 1 {
        assert(f.subrange(c * i, c * i + c) =~= attr_words(chunk[i], which));
    } else {
        lemma_attr_flat_at(init, which, i);
        assert(init[i] == chunk[i]);
        assert(c * i + c <= c * (chunk.len() - 1)) by (nonlinear_arith)
            requires
                0 <= i < chunk.len() - 1,
                c >= 1,
        ;
        assert(f.subrange(c * i, c * i + c) =~= fi.subrange(c * i, c * i + c));
    }
}

/// Every splat is RGB, or every splat has degree-3 SH with all 48
/// coefficients: the colors a single FLOAT primitive stores exactly.
pub open spec fn uniform_colors(chunk: Seq<SplatBits>) -> bool {
    ||| forall|i: int| 0 <= i < chunk.len() ==> #[trigger] chunk[i].color is Rgb
    ||| forall|i: int|
        0 <= i < chunk.len() ==> (#[trigger] chunk[i].color matches ColorBits::Sh { degree, coeffs } && degree == 3
            && coeffs@.len() == 48)
}

/// The decoded attributes of a FLOAT chunk, rebuilt into splats, give back
/// every splat of the chunk, when its colors are uniform.
pub proof fn lemma_float_read_back(chunk: Seq<SplatBits>, i: int)
    requires
        uniform_colors(chunk),
        0 <= i < chunk.len(),
    ensures
        read_back_view(
            attr_flat(chunk, 0),
            attr_flat(chunk, 1),
            attr_flat(chunk, 2),
            attr_flat(chunk, 3),
            attr_flat(chunk, 4),
            if any_sh(chunk) {
                Some(attr_flat(chunk, 5))
            } else {
                None
            },
            i,
        ) == splat_view(chunk[i]),
{
    assert forall|j: int| 0 <= j < chunk.len() implies (#[trigger] chunk[j].color matches ColorBits::Sh { coeffs, .. } ==> coeffs@.len() >= 3) by {
    }
    let s = chunk[i];
    lemma_attr_flat_at(chunk, 0, i);
    lemma_attr_flat_at(chunk, 1, i);
    lemma_attr_flat_at(chunk, 2, i);
    lemma_attr_flat_at(chunk, 3, i);
    lemma_attr_flat_at(chunk, 4, i);
    lemma_section_words(chunk, 0);
    lemma_section_words(chunk, 1);
    lemma_section_words(chunk, 2);
    lemma_section_words(chunk, 3);
    lemma_section_words(chunk, 4);
    assert(attr_comps(3) == 1);
    assert(attr_flat(chunk, 3).len() == chunk.len());
    assert(attr_flat(chunk, 3).subrange(i, i + 1) == seq![s.opacity]);
    assert(attr_flat(chunk, 3).subrange(i, i + 1)[0] == attr_flat(chunk, 3)[i]);
    match s.color {
        ColorBits::Rgb(a) => {
            if any_sh(chunk) {
                let j = choose|j: int| 0 <= j < chunk.len() && #[trigger] chunk[j].color is Sh;
                assert(chunk[j].color is Sh);
                assert(false);
            }
        },
        ColorBits::Sh { degree, coeffs } => {
            assert(chunk[i].color is Sh);
            assert(any_sh(chunk));
            assert(degree == 3 && coeffs@.len() == 48);
            lemma_attr_flat_at(chunk, 5, i);
            assert(coeffs@.take(3) + sh_rest_words(s.color) =~= coeffs@);
        },
    }
}

} // verus!
