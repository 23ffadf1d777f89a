//! Conformance suite for the Khronos `KHR_gaussian_splatting` glTF extension
//! (and its `KHR_gaussian_splatting_compression_spz` sub-extension).
//!
//! Each [`Clause`] is one normative requirement. [`validate_document`] runs
//! every clause, in spec order, against a glTF document and returns a
//! [`Report`] that says whether each clause passed, failed, or did not apply.
//! The document is described by [`GltfDocument`], which holds exactly the
//! values of the glTF JSON that the clauses read.
use vstd::prelude::*;
use vstd::string::*;
use vstd::utf8::*;
use crate::bytes::{le_u32, read_u32_le, copy_range};
use crate::json::{JsonValue, json_parse, parse_json, member, as_u64, as_str, as_array, as_object, first_of, array_member, string_elems, opt_ref, get_member, get_u64, get_string, get_array, get_object, get_first, string_members};
use crate::text::{lossy_utf8, utf8_str, debug_str, decimal, decimal_string, debug_quoted, bracket_list, join, hex2, lit, append_str, str_eq, contains_str, strs_view, join_strings, bracket_join, push_decimal, push_debug, hex2_string, lemma_strs_view_push};

verus! {

/// Identifier for every spec clause the validator can check.
#[derive(Debug, Clone, Copy, PartialEq, Eq, Hash, Structural)]
pub enum Clause {
    ExtUsed,
    ExtRequired,
    AssetVersion,
    PrimitiveExtensionPresent,
    ExtProjection,
    ExtSorting,
    AttributesObjectPresent,
    PositionPresent,
    RotationPresent,
    ScalePresent,
    OpacityPresent,
    ColorDcPresent,
    PositionAccessor,
    RotationAccessor,
    ScaleAccessor,
    OpacityAccessor,
    ColorDcAccessor,
    ColorShAccessor,
    PositionMinMax,
    ShDegreeRange,
    AccessorCountsAgree,
    BufferViewBounds,
    SpzExtensionDeclared,
    SpzExtensionConsistent,
    NoUnknownAttributes,
    SpzExtPresent,
    SpzVersion,
    SpzBufferView,
    SpzBlobMagic,
    SpzDecodedCount,
}

/// All clauses in spec order.
pub open spec fn all_clauses() -> Seq<Clause> {
    seq![
        Clause::ExtUsed,
        Clause::ExtRequired,
        Clause::AssetVersion,
        Clause::PrimitiveExtensionPresent,
        Clause::ExtProjection,
        Clause::ExtSorting,
        Clause::AttributesObjectPresent,
        Clause::PositionPresent,
        Clause::RotationPresent,
        Clause::ScalePresent,
        Clause::OpacityPresent,
        Clause::ColorDcPresent,
        Clause::PositionAccessor,
        Clause::RotationAccessor,
        Clause::ScaleAccessor,
        Clause::OpacityAccessor,
        Clause::ColorDcAccessor,
        Clause::ColorShAccessor,
        Clause::PositionMinMax,
        Clause::ShDegreeRange,
        Clause::AccessorCountsAgree,
        Clause::BufferViewBounds,
        Clause::SpzExtensionDeclared,
        Clause::SpzExtensionConsistent,
        Clause::NoUnknownAttributes,
        Clause::SpzExtPresent,
        Clause::SpzVersion,
        Clause::SpzBufferView,
        Clause::SpzBlobMagic,
        Clause::SpzDecodedCount,
    ]
}

/// Stable short identifier of each clause, as it appears in reports.
pub open spec fn clause_id(c: Clause) -> Seq<char> {
    match c {
        Clause::ExtUsed => "EXT_USED"@,
        Clause::ExtRequired => "EXT_REQUIRED"@,
        Clause::AssetVersion => "ASSET_VERSION"@,
        Clause::PrimitiveExtensionPresent => "PRIM_EXT"@,
        Clause::ExtProjection => "EXT_PROJECTION"@,
        Clause::ExtSorting => "EXT_SORTING"@,
        Clause::AttributesObjectPresent => "ATTRS_OBJECT"@,
        Clause::PositionPresent => "ATTR_POSITION"@,
        Clause::RotationPresent => "ATTR_ROTATION"@,
        Clause::ScalePresent => "ATTR_SCALE"@,
        Clause::OpacityPresent => "ATTR_OPACITY"@,
        Clause::ColorDcPresent => "ATTR_COLOR_DC"@,
        Clause::PositionAccessor => "ACC_POSITION"@,
        Clause::RotationAccessor => "ACC_ROTATION"@,
        Clause::ScaleAccessor => "ACC_SCALE"@,
        Clause::OpacityAccessor => "ACC_OPACITY"@,
        Clause::ColorDcAccessor => "ACC_COLOR_DC"@,
        Clause::ColorShAccessor => "ACC_SH_COEF"@,
        Clause::PositionMinMax => "ACC_POSITION_MINMAX"@,
        Clause::ShDegreeRange => "SH_DEGREES_FULL"@,
        Clause::AccessorCountsAgree => "ACC_COUNTS_AGREE"@,
        Clause::BufferViewBounds => "BUFFERVIEW_BOUNDS"@,
        Clause::SpzExtensionDeclared => "SPZ_DECLARED"@,
        Clause::SpzExtensionConsistent => "SPZ_CONSISTENT"@,
        Clause::NoUnknownAttributes => "ATTRS_KNOWN_ONLY"@,
        Clause::SpzExtPresent => "SPZ_EXT_PRESENT"@,
        Clause::SpzVersion => "SPZ_VERSION"@,
        Clause::SpzBufferView => "SPZ_BUFFERVIEW"@,
        Clause::SpzBlobMagic => "SPZ_BLOB_MAGIC"@,
        Clause::SpzDecodedCount => "SPZ_DECODED_COUNT"@,
    }
}

/// Human-readable description of each clause.
pub open spec fn clause_description(c: Clause) -> Seq<char> {
    match c {
        Clause::ExtUsed => "Root extensionsUsed array MUST list \"KHR_gaussian_splatting\"."@,
        Clause::ExtRequired => "extensionsRequired SHOULD list \"KHR_gaussian_splatting\" when the asset cannot render without it."@,
        Clause::AssetVersion => "asset.version MUST be \"2.0\" per glTF 2.0."@,
        Clause::PrimitiveExtensionPresent => "At least one mesh.primitives[i].extensions[\"KHR_gaussian_splatting\"] block MUST be present."@,
        Clause::ExtProjection => "When present, the KHR_gaussian_splatting projection MUST be \"perspective\"."@,
        Clause::ExtSorting => "When present, the KHR_gaussian_splatting sortingMethod MUST be \"cameraDistance\"."@,
        Clause::AttributesObjectPresent => "The splat primitive MUST carry an \"attributes\" object (on the primitive, or on the KHR_gaussian_splatting block in the earlier layout)."@,
        Clause::PositionPresent => "The attributes object MUST declare a POSITION accessor."@,
        Clause::RotationPresent => "The attributes object MUST declare a KHR_gaussian_splatting:ROTATION (earlier layout: _ROTATION) accessor."@,
        Clause::ScalePresent => "The attributes object MUST declare a KHR_gaussian_splatting:SCALE (earlier layout: _SCALE) accessor."@,
        Clause::OpacityPresent => "The attributes object MUST declare a KHR_gaussian_splatting:OPACITY (earlier layout: _OPACITY) accessor."@,
        Clause::ColorDcPresent => "The attributes object MUST declare a KHR_gaussian_splatting:SH_DEGREE_0_COEF_0 (earlier layout: _COLOR_DC) accessor."@,
        Clause::PositionAccessor => "POSITION accessor MUST be VEC3 (componentType FLOAT, or normalized UNSIGNED_SHORT/UNSIGNED_BYTE under KHR_mesh_quantization)."@,
        Clause::RotationAccessor => "The rotation accessor MUST be VEC4 (FLOAT, or normalized BYTE/SHORT under KHR_mesh_quantization; FLOAT only in the earlier layout)."@,
        Clause::ScaleAccessor => "_SCALE accessor MUST be VEC3 (FLOAT or normalized integer)."@,
        Clause::OpacityAccessor => "_OPACITY accessor MUST be SCALAR (FLOAT or normalized integer in [0,1])."@,
        Clause::ColorDcAccessor => "_COLOR_DC accessor MUST be VEC3 (FLOAT or normalized integer in [0,1])."@,
        Clause::ColorShAccessor => "Each spherical-harmonic coefficient accessor of degree 1 to 3 MUST be VEC3 (FLOAT or normalized integer) with one element per splat (earlier layout: _COLOR_SH MUST be SCALAR FLOAT with 45 elements per splat)."@,
        Clause::PositionMinMax => "POSITION accessor MUST provide both min and max arrays (glTF 2.0 §3.6.2.4)."@,
        Clause::ShDegreeRange => "Spherical-harmonic degrees MUST be complete: every degree up to the highest declared one MUST provide all 2l+1 coefficients (earlier layout: shDegree MUST be in [0, 3], and 0 without _COLOR_SH)."@,
        Clause::AccessorCountsAgree => "All per-splat accessors (POSITION, _ROTATION, _SCALE, _OPACITY, _COLOR_DC) MUST share the same count."@,
        Clause::BufferViewBounds => "Every referenced accessor's bufferView MUST be in range and its byte footprint MUST fit inside the parent buffer."@,
        Clause::SpzExtensionDeclared => "If KHR_gaussian_splatting_compression_spz appears anywhere in the asset it MUST be listed in extensionsUsed."@,
        Clause::SpzExtensionConsistent => "If a primitive declares KHR_gaussian_splatting_compression_spz it MUST also declare KHR_gaussian_splatting on the same primitive."@,
        Clause::NoUnknownAttributes => "The attributes object MUST NOT contain unknown attribute keys (POSITION, the KHR_gaussian_splatting: ROTATION, SCALE, OPACITY and SH_DEGREE_l_COEF_k keys up to degree 3; earlier layout: POSITION, _ROTATION, _SCALE, _OPACITY, _COLOR_DC, _COLOR_SH)."@,
        Clause::SpzExtPresent => "When KHR_gaussian_splatting_compression_spz is in extensionsUsed, at least one primitive MUST declare it under its own extensions object."@,
        Clause::SpzVersion => "KHR_gaussian_splatting_compression_spz.version MUST be 2 (the SPZ wire format version)."@,
        Clause::SpzBufferView => "KHR_gaussian_splatting_compression_spz.bufferView MUST be an integer in range of bufferViews[] and the view MUST fit within its buffer."@,
        Clause::SpzBlobMagic => "The bytes referenced by the SPZ bufferView MUST start with the SPZ magic (0x5053_4e47)."@,
        Clause::SpzDecodedCount => "The splat_count decoded from the SPZ header MUST equal the primitive's declared splatCount (extension or _OPACITY accessor count)."@,
    }
}

impl Clause {
    /// All clauses in spec order.
    pub fn all() -> (r: &'static [Clause])
        ensures
            r@ == all_clauses(),
    {
        let r: &'static [Clause] = &[
            Clause::ExtUsed,
            Clause::ExtRequired,
            Clause::AssetVersion,
            Clause::PrimitiveExtensionPresent,
            Clause::ExtProjection,
            Clause::ExtSorting,
            Clause::AttributesObjectPresent,
            Clause::PositionPresent,
            Clause::RotationPresent,
            Clause::ScalePresent,
            Clause::OpacityPresent,
            Clause::ColorDcPresent,
            Clause::PositionAccessor,
            Clause::RotationAccessor,
            Clause::ScaleAccessor,
            Clause::OpacityAccessor,
            Clause::ColorDcAccessor,
            Clause::ColorShAccessor,
            Clause::PositionMinMax,
            Clause::ShDegreeRange,
            Clause::AccessorCountsAgree,
            Clause::BufferViewBounds,
            Clause::SpzExtensionDeclared,
            Clause::SpzExtensionConsistent,
            Clause::NoUnknownAttributes,
            Clause::SpzExtPresent,
            Clause::SpzVersion,
            Clause::SpzBufferView,
            Clause::SpzBlobMagic,
            Clause::SpzDecodedCount,
        ];
        assert(r@ =~= all_clauses());
        r
    }

    /// Short, stable identifier used in JSON output and CLI tables.
    pub fn id(self) -> (r: &'static str)
        ensures
            r@ == clause_id(self),
    {
        match self {
            Clause::ExtUsed => "EXT_USED",
            Clause::ExtRequired => "EXT_REQUIRED",
            Clause::AssetVersion => "ASSET_VERSION",
            Clause::PrimitiveExtensionPresent => "PRIM_EXT",
            Clause::ExtProjection => "EXT_PROJECTION",
            Clause::ExtSorting => "EXT_SORTING",
            Clause::AttributesObjectPresent => "ATTRS_OBJECT",
            Clause::PositionPresent => "ATTR_POSITION",
            Clause::RotationPresent => "ATTR_ROTATION",
            Clause::ScalePresent => "ATTR_SCALE",
            Clause::OpacityPresent => "ATTR_OPACITY",
            Clause::ColorDcPresent => "ATTR_COLOR_DC",
            Clause::PositionAccessor => "ACC_POSITION",
            Clause::RotationAccessor => "ACC_ROTATION",
            Clause::ScaleAccessor => "ACC_SCALE",
            Clause::OpacityAccessor => "ACC_OPACITY",
            Clause::ColorDcAccessor => "ACC_COLOR_DC",
            Clause::ColorShAccessor => "ACC_SH_COEF",
            Clause::PositionMinMax => "ACC_POSITION_MINMAX",
            Clause::ShDegreeRange => "SH_DEGREES_FULL",
            Clause::AccessorCountsAgree => "ACC_COUNTS_AGREE",
            Clause::BufferViewBounds => "BUFFERVIEW_BOUNDS",
            Clause::SpzExtensionDeclared => "SPZ_DECLARED",
            Clause::SpzExtensionConsistent => "SPZ_CONSISTENT",
            Clause::NoUnknownAttributes => "ATTRS_KNOWN_ONLY",
            Clause::SpzExtPresent => "SPZ_EXT_PRESENT",
            Clause::SpzVersion => "SPZ_VERSION",
            Clause::SpzBufferView => "SPZ_BUFFERVIEW",
            Clause::SpzBlobMagic => "SPZ_BLOB_MAGIC",
            Clause::SpzDecodedCount => "SPZ_DECODED_COUNT",
        }
    }

    /// Human-readable description, suitable for the conformance table.
    pub fn description(self) -> (r: &'static str)
        ensures
            r@ == clause_description(self),
    {
        match self {
            Clause::ExtUsed => "Root extensionsUsed array MUST list \"KHR_gaussian_splatting\".",
            Clause::ExtRequired => "extensionsRequired SHOULD list \"KHR_gaussian_splatting\" when the asset cannot render without it.",
            Clause::AssetVersion => "asset.version MUST be \"2.0\" per glTF 2.0.",
            Clause::PrimitiveExtensionPresent => "At least one mesh.primitives[i].extensions[\"KHR_gaussian_splatting\"] block MUST be present.",
            Clause::ExtProjection => "When present, the KHR_gaussian_splatting projection MUST be \"perspective\".",
            Clause::ExtSorting => "When present, the KHR_gaussian_splatting sortingMethod MUST be \"cameraDistance\".",
            Clause::AttributesObjectPresent => "The splat primitive MUST carry an \"attributes\" object (on the primitive, or on the KHR_gaussian_splatting block in the earlier layout).",
            Clause::PositionPresent => "The attributes object MUST declare a POSITION accessor.",
            Clause::RotationPresent => "The attributes object MUST declare a KHR_gaussian_splatting:ROTATION (earlier layout: _ROTATION) accessor.",
            Clause::ScalePresent => "The attributes object MUST declare a KHR_gaussian_splatting:SCALE (earlier layout: _SCALE) accessor.",
            Clause::OpacityPresent => "The attributes object MUST declare a KHR_gaussian_splatting:OPACITY (earlier layout: _OPACITY) accessor.",
            Clause::ColorDcPresent => "The attributes object MUST declare a KHR_gaussian_splatting:SH_DEGREE_0_COEF_0 (earlier layout: _COLOR_DC) accessor.",
            Clause::PositionAccessor => "POSITION accessor MUST be VEC3 (componentType FLOAT, or normalized UNSIGNED_SHORT/UNSIGNED_BYTE under KHR_mesh_quantization).",
            Clause::RotationAccessor => "The rotation accessor MUST be VEC4 (FLOAT, or normalized BYTE/SHORT under KHR_mesh_quantization; FLOAT only in the earlier layout).",
            Clause::ScaleAccessor => "_SCALE accessor MUST be VEC3 (FLOAT or normalized integer).",
            Clause::OpacityAccessor => "_OPACITY accessor MUST be SCALAR (FLOAT or normalized integer in [0,1]).",
            Clause::ColorDcAccessor => "_COLOR_DC accessor MUST be VEC3 (FLOAT or normalized integer in [0,1]).",
            Clause::ColorShAccessor => "Each spherical-harmonic coefficient accessor of degree 1 to 3 MUST be VEC3 (FLOAT or normalized integer) with one element per splat (earlier layout: _COLOR_SH MUST be SCALAR FLOAT with 45 elements per splat).",
            Clause::PositionMinMax => "POSITION accessor MUST provide both min and max arrays (glTF 2.0 §3.6.2.4).",
            Clause::ShDegreeRange => "Spherical-harmonic degrees MUST be complete: every degree up to the highest declared one MUST provide all 2l+1 coefficients (earlier layout: shDegree MUST be in [0, 3], and 0 without _COLOR_SH).",
            Clause::AccessorCountsAgree => "All per-splat accessors (POSITION, _ROTATION, _SCALE, _OPACITY, _COLOR_DC) MUST share the same count.",
            Clause::BufferViewBounds => "Every referenced accessor's bufferView MUST be in range and its byte footprint MUST fit inside the parent buffer.",
            Clause::SpzExtensionDeclared => "If KHR_gaussian_splatting_compression_spz appears anywhere in the asset it MUST be listed in extensionsUsed.",
            Clause::SpzExtensionConsistent => "If a primitive declares KHR_gaussian_splatting_compression_spz it MUST also declare KHR_gaussian_splatting on the same primitive.",
            Clause::NoUnknownAttributes => "The attributes object MUST NOT contain unknown attribute keys (POSITION, the KHR_gaussian_splatting: ROTATION, SCALE, OPACITY and SH_DEGREE_l_COEF_k keys up to degree 3; earlier layout: POSITION, _ROTATION, _SCALE, _OPACITY, _COLOR_DC, _COLOR_SH).",
            Clause::SpzExtPresent => "When KHR_gaussian_splatting_compression_spz is in extensionsUsed, at least one primitive MUST declare it under its own extensions object.",
            Clause::SpzVersion => "KHR_gaussian_splatting_compression_spz.version MUST be 2 (the SPZ wire format version).",
            Clause::SpzBufferView => "KHR_gaussian_splatting_compression_spz.bufferView MUST be an integer in range of bufferViews[] and the view MUST fit within its buffer.",
            Clause::SpzBlobMagic => "The bytes referenced by the SPZ bufferView MUST start with the SPZ magic (0x5053_4e47).",
            Clause::SpzDecodedCount => "The splat_count decoded from the SPZ header MUST equal the primitive's declared splatCount (extension or _OPACITY accessor count).",
        }
    }

    /// Whether this clause is a MUST (true) or SHOULD/optional (false).
    pub fn is_mandatory(self) -> (r: bool)
        ensures
            r == (self != Clause::ExtRequired),
    {
        !matches!(self, Clause::ExtRequired)
    }
}

/// Outcome of evaluating a single clause.
#[derive(Debug, Clone, Copy, PartialEq, Eq, Structural)]
pub enum Status {
    /// Clause checked and satisfied.
    Pass,
    /// Clause checked and violated.
    Fail,
    /// Clause did not apply to this asset.
    Skip,
}

/// Per-clause result.
#[derive(Debug, Clone)]
pub struct ClauseResult {
    /// Short stable identifier (`Clause::id`).
    pub id: String,
    /// Outcome bucket.
    pub status: Status,
    /// Optional human-readable detail; present on Fail and Skip.
    pub detail: Option<String>,
}

/// Top-level validator report.
#[derive(Debug, Clone)]
pub struct Report {
    /// File the report was produced for.
    pub source: String,
    /// glTF container variant: `"gltf"` or `"glb"`.
    pub container: String,
    /// Number of clauses with status [`Status::Pass`].
    pub pass: usize,
    /// Number of clauses with status [`Status::Fail`].
    pub fail: usize,
    /// Number of clauses with status [`Status::Skip`].
    pub skip: usize,
    /// Full per-clause breakdown in spec order.
    pub clauses: Vec<ClauseResult>,
}

impl Report {
    /// True when no clause failed (skips are tolerated).
    pub fn is_pass(&self) -> (r: bool)
        ensures
            r == (self.fail == 0),
    {
        self.fail == 0
    }
}

/// Errors that stop validation before any clause runs.
#[derive(Debug, Clone)]
pub enum ValidateError {
    Io(String),
    Json(String),
    Glb(String),
    UnsupportedExt(String),
    /// A size or offset in the document overflows 64-bit arithmetic.
    Arithmetic,
}

/// One accessor of the document, as the clauses read it. A field is `None`
/// when the JSON member is absent or has the wrong JSON type.
#[derive(Debug, Clone)]
pub struct JsonAccessor {
    /// `type`, when it is a string.
    pub type_str: Option<String>,
    /// `componentType`, when it is a non-negative integer.
    pub component_type: Option<u64>,
    /// `count`, when it is a non-negative integer.
    pub count: Option<u64>,
    /// `bufferView`, when it is a non-negative integer.
    pub buffer_view: Option<u64>,
    /// Length of `min`, when it is an array.
    pub min_len: Option<usize>,
    /// Length of `max`, when it is an array.
    pub max_len: Option<usize>,
}

/// One buffer view of the document.
#[derive(Debug, Clone)]
pub struct JsonBufferView {
    /// `buffer`, when it is a non-negative integer.
    pub buffer: Option<u64>,
    /// `byteOffset`, when it is a non-negative integer.
    pub byte_offset: Option<u64>,
    /// `byteLength`, when it is a non-negative integer.
    pub byte_length: Option<u64>,
}

/// One buffer of the document.
#[derive(Debug, Clone)]
pub struct JsonBuffer {
    /// `byteLength`, when it is a non-negative integer.
    pub byte_length: Option<u64>,
}

/// One member of the `attributes` object: its key and, when the value is a
/// non-negative integer, that accessor index.
#[derive(Debug, Clone)]
pub struct AttributeEntry {
    pub key: String,
    pub index: Option<u64>,
}

/// The `KHR_gaussian_splatting` block of the first primitive.
#[derive(Debug, Clone)]
pub struct KhrPrimitiveExt {
    /// The members of `attributes`, in object order, when it is an object.
    pub attributes: Option<Vec<AttributeEntry>>,
    /// `shDegree`, when it is a non-negative integer.
    pub sh_degree: Option<u64>,
    /// `projection`, when present: its text when it is a string.
    pub projection: Option<Option<String>>,
    /// `sortingMethod`, when present: its text when it is a string.
    pub sorting_method: Option<Option<String>>,
}

/// The `KHR_gaussian_splatting_compression_spz` block of the first primitive.
#[derive(Debug, Clone)]
pub struct SpzPrimitiveExt {
    pub version: Option<u64>,
    pub buffer_view: Option<u64>,
    pub splat_count: Option<u64>,
}

/// The parts of a glTF 2.0 JSON document that the conformance clauses read.
#[derive(Debug, Clone)]
pub struct GltfDocument {
    /// The string members of `extensionsUsed`.
    pub extensions_used: Vec<String>,
    /// The string members of `extensionsRequired`.
    pub extensions_required: Vec<String>,
    /// `asset.version`, when it is a string.
    pub asset_version: Option<String>,
    /// The members of `meshes[0].primitives[0].attributes`, in object order,
    /// when it is an object.
    pub prim_attributes: Option<Vec<AttributeEntry>>,
    /// `meshes[0].primitives[0].extensions["KHR_gaussian_splatting"]`, when present.
    pub khr_ext: Option<KhrPrimitiveExt>,
    /// `meshes[0].primitives[0].extensions["KHR_gaussian_splatting_compression_spz"]`, when present.
    pub spz_ext: Option<SpzPrimitiveExt>,
    /// `accessors` (empty when absent).
    pub accessors: Vec<JsonAccessor>,
    /// `bufferViews` (empty when absent).
    pub buffer_views: Vec<JsonBufferView>,
    /// `buffers` (empty when absent).
    pub buffers: Vec<JsonBuffer>,
}

/// A clause outcome in the specification: status and detail text.
pub type Outcome = (Status, Option<Seq<char>>);

pub open spec fn pass_o() -> Outcome {
    (Status::Pass, None)
}

pub open spec fn fail_o(d: Seq<char>) -> Outcome {
    (Status::Fail, Some(d))
}

pub open spec fn skip_o(d: Seq<char>) -> Outcome {
    (Status::Skip, Some(d))
}

pub open spec fn opt_str(o: Option<String>) -> Option<Seq<char>> {
    match o {
        Some(s) => Some(s@),
        None => None,
    }
}

pub open spec fn or0(o: Option<u64>) -> u64 {
    match o {
        Some(v) => v,
        None => 0,
    }
}

/// `r` reports clause `c` with outcome `o`.
pub open spec fn reports(r: ClauseResult, c: Clause, o: Outcome) -> bool {
    &&& r.id@ == clause_id(c)
    &&& r.status == o.0
    &&& opt_str(r.detail) == o.1
}

pub open spec fn khr_name() -> Seq<char> {
    "KHR_gaussian_splatting"@
}

pub open spec fn spz_name() -> Seq<char> {
    "KHR_gaussian_splatting_compression_spz"@
}

pub open spec fn lists(v: Seq<String>, s: Seq<char>) -> bool {
    exists|i: int| 0 <= i < v.len() && #[trigger] v[i]@ == s
}

/// The document uses the release-candidate layout: the splat attributes sit
/// on the primitive under `KHR_gaussian_splatting:`-prefixed names, not in an
/// `attributes` object of the extension block.
pub open spec fn rc_layout(doc: GltfDocument) -> bool {
    match doc.khr_ext {
        Some(e) => e.attributes is None,
        None => true,
    }
}

/// The attributes object the clauses read: the extension block's in the
/// earlier layout, else the primitive's.
pub open spec fn attrs_of(doc: GltfDocument) -> Option<Seq<AttributeEntry>> {
    if rc_layout(doc) {
        match doc.prim_attributes {
            Some(a) => Some(a@),
            None => None,
        }
    } else {
        match doc.khr_ext {
            Some(e) => match e.attributes {
                Some(a) => Some(a@),
                None => None,
            },
            None => None,
        }
    }
}

/// The attribute key of spherical-harmonic coefficient `k` of degree `l`.
pub open spec fn sh_key(l: nat, k: nat) -> Seq<char> {
    khr_name() + ":SH_DEGREE_"@ + decimal(l) + "_COEF_"@ + decimal(k)
}

/// The `i`-th (degree, coefficient) pair of degrees 1 to 3, in order:
/// three of degree 1, five of degree 2, seven of degree 3.
pub open spec fn sh_pair(i: int) -> (nat, nat) {
    if i < 3 {
        (1, i as nat)
    } else if i < 8 {
        (2, (i - 3) as nat)
    } else {
        (3, (i - 8) as nat)
    }
}

/// The key of the `i`-th higher-degree coefficient.
pub open spec fn sh_key_at(i: int) -> Seq<char> {
    sh_key(sh_pair(i).0, sh_pair(i).1)
}

/// The key a role name has in the document's layout: the earlier layout
/// uses the role name itself; the release-candidate layout prefixes the
/// extension name, and the DC color is SH coefficient 0 of degree 0.
pub open spec fn key_for(doc: GltfDocument, name: Seq<char>) -> Seq<char> {
    if !rc_layout(doc) {
        name
    } else if name == "_ROTATION"@ {
        khr_name() + ":ROTATION"@
    } else if name == "_SCALE"@ {
        khr_name() + ":SCALE"@
    } else if name == "_OPACITY"@ {
        khr_name() + ":OPACITY"@
    } else if name == "_COLOR_DC"@ {
        sh_key(0, 0)
    } else {
        name
    }
}

/// The value of the first member named `name`, if any.
pub open spec fn lookup_attr(a: Seq<AttributeEntry>, name: Seq<char>) -> Option<Option<u64>>
    decreases a.len(),
{
    if a.len() == 0 {
        None
    } else if a[0].key@ == name {
        Some(a[0].index)
    } else {
        lookup_attr(a.drop_first(), name)
    }
}

/// The accessor index the attribute keyed `key` names, when it is declared
/// as an integer.
pub open spec fn key_index(doc: GltfDocument, key: Seq<char>) -> Option<u64> {
    match attrs_of(doc) {
        None => None,
        Some(a) => match lookup_attr(a, key) {
            Some(Some(i)) => Some(i),
            _ => None,
        },
    }
}

/// The accessor index of the attribute with role `name`.
pub open spec fn attr_index(doc: GltfDocument, name: Seq<char>) -> Option<u64> {
    key_index(doc, key_for(doc, name))
}

pub open spec fn accessor_at(doc: GltfDocument, idx: u64) -> Option<JsonAccessor> {
    if idx < doc.accessors@.len() {
        Some(doc.accessors@[idx as int])
    } else {
        None
    }
}

pub open spec fn acc_type(a: JsonAccessor) -> Seq<char> {
    match a.type_str {
        Some(s) => s@,
        None => Seq::empty(),
    }
}

pub open spec fn acc_ct(a: JsonAccessor) -> u32 {
    (or0(a.component_type) % 4294967296) as u32
}

pub open spec fn acc_count_at(doc: GltfDocument, name: Seq<char>) -> u64 {
    match attr_index(doc, name) {
        Some(i) => match accessor_at(doc, i) {
            Some(a) => or0(a.count),
            None => 0,
        },
        None => 0,
    }
}

/* ---------- the clauses ---------- */

pub open spec fn o_ext_used(doc: GltfDocument) -> Outcome {
    if lists(doc.extensions_used@, khr_name()) {
        pass_o()
    } else {
        fail_o("KHR_gaussian_splatting not in extensionsUsed"@)
    }
}

pub open spec fn o_ext_required(doc: GltfDocument) -> Outcome {
    if lists(doc.extensions_required@, khr_name()) {
        pass_o()
    } else {
        skip_o("KHR_gaussian_splatting not in extensionsRequired (optional)"@)
    }
}

pub open spec fn o_asset_version(doc: GltfDocument) -> Outcome {
    match doc.asset_version {
        Some(v) => if v@ == "2.0"@ {
            pass_o()
        } else {
            fail_o("asset.version is "@ + debug_quoted(v@) + ", want \"2.0\""@)
        },
        None => fail_o("asset.version missing"@),
    }
}

pub open spec fn o_prim_ext(doc: GltfDocument) -> Outcome {
    if doc.khr_ext is Some {
        pass_o()
    } else {
        fail_o("no primitive declares KHR_gaussian_splatting"@)
    }
}

/// The outcome of an optional string member of the extension block that,
/// when present, must equal `want`.
pub open spec fn o_ext_member(
    doc: GltfDocument,
    member: Option<Option<String>>,
    field: Seq<char>,
    want: Seq<char>,
) -> Outcome {
    if doc.khr_ext is None {
        skip_o("no KHR_gaussian_splatting block"@)
    } else {
        match member {
            None => skip_o(field + " omitted (defaults to "@ + want + ")"@),
            Some(None) => fail_o(field + " is not a string"@),
            Some(Some(v)) => if v@ == want {
                pass_o()
            } else {
                fail_o(field + "="@ + debug_quoted(v@) + ", want "@ + debug_quoted(want))
            },
        }
    }
}

pub open spec fn ext_projection(doc: GltfDocument) -> Option<Option<String>> {
    match doc.khr_ext {
        Some(e) => e.projection,
        None => None,
    }
}

pub open spec fn ext_sorting(doc: GltfDocument) -> Option<Option<String>> {
    match doc.khr_ext {
        Some(e) => e.sorting_method,
        None => None,
    }
}

pub open spec fn o_ext_projection(doc: GltfDocument) -> Outcome {
    o_ext_member(doc, ext_projection(doc), "projection"@, "perspective"@)
}

pub open spec fn o_ext_sorting(doc: GltfDocument) -> Outcome {
    o_ext_member(doc, ext_sorting(doc), "sortingMethod"@, "cameraDistance"@)
}

pub open spec fn o_attrs_object(doc: GltfDocument) -> Outcome {
    if attrs_of(doc) is Some {
        pass_o()
    } else {
        fail_o("no attributes object on KHR block"@)
    }
}

pub open spec fn o_present(doc: GltfDocument, name: Seq<char>) -> Outcome {
    if attr_index(doc, name) is Some {
        pass_o()
    } else {
        fail_o("attribute "@ + key_for(doc, name) + " missing"@)
    }
}

pub open spec fn o_accessor_shape(
    doc: GltfDocument,
    name: Seq<char>,
    want_type: Seq<Seq<char>>,
    want_ct: Seq<u32>,
) -> Outcome {
    match attr_index(doc, name) {
        None => skip_o(name + " accessor absent"@),
        Some(idx) => match accessor_at(doc, idx) {
            None => fail_o("accessor index "@ + decimal(idx as nat) + " out of range"@),
            Some(acc) => if !want_type.contains(acc_type(acc)) {
                fail_o(
                    name + ".type="@ + debug_quoted(acc_type(acc)) + ", want one of "@
                        + bracket_list(want_type.map_values(|t: Seq<char>| debug_quoted(t))),
                )
            } else if !want_ct.contains(acc_ct(acc)) {
                fail_o(
                    name + ".componentType="@ + decimal(acc_ct(acc) as nat) + ", want one of "@
                        + bracket_list(want_ct.map_values(|c: u32| decimal(c as nat))),
                )
            } else {
                pass_o()
            },
        },
    }
}

pub open spec fn float_ints() -> Seq<u32> {
    seq![5126u32, 5121u32, 5123u32]
}

/// What is wrong with the higher-degree SH coefficient keyed `key`, if it is
/// declared and wrong.
pub open spec fn sh_coef_problem(doc: GltfDocument, key: Seq<char>) -> Option<Seq<char>> {
    match key_index(doc, key) {
        None => None,
        Some(idx) => match accessor_at(doc, idx) {
            None => Some("accessor "@ + decimal(idx as nat) + " out of range"@),
            Some(acc) => if acc_type(acc) != "VEC3"@ {
                Some(key + ".type="@ + debug_quoted(acc_type(acc)) + ", want VEC3"@)
            } else if !float_ints().contains(acc_ct(acc)) {
                Some(
                    key + ".componentType="@ + decimal(acc_ct(acc) as nat)
                        + ", want one of [5126, 5121, 5123]"@,
                )
            } else if or0(acc.count) != acc_count_at(doc, "POSITION"@) {
                Some(
                    key + ".count="@ + decimal(or0(acc.count) as nat) + ", want "@ + decimal(
                        acc_count_at(doc, "POSITION"@) as nat,
                    ) + " (one per splat)"@,
                )
            } else {
                None
            },
        },
    }
}

/// The first problem among the first `m` higher-degree coefficients.
pub open spec fn first_sh_problem(doc: GltfDocument, m: int) -> Option<Seq<char>>
    decreases m,
{
    if m <= 0 {
        None
    } else {
        match first_sh_problem(doc, m - 1) {
            Some(d) => Some(d),
            None => sh_coef_problem(doc, sh_key_at(m - 1)),
        }
    }
}

/// Some of the first `m` higher-degree coefficients are declared.
pub open spec fn sh_any(doc: GltfDocument, m: int) -> bool
    decreases m,
{
    if m <= 0 {
        false
    } else {
        sh_any(doc, m - 1) || key_index(doc, sh_key_at(m - 1)) is Some
    }
}

/// The highest degree among the declared ones of the first `m`
/// higher-degree coefficients (0 when none is declared).
pub open spec fn sh_top(doc: GltfDocument, m: int) -> nat
    decreases m,
{
    if m <= 0 {
        0
    } else if key_index(doc, sh_key_at(m - 1)) is Some {
        sh_pair(m - 1).0
    } else {
        sh_top(doc, m - 1)
    }
}

/// The key of the first of the first `m` higher-degree coefficients of
/// degree at most `d` that is not declared.
pub open spec fn first_sh_missing(doc: GltfDocument, d: nat, m: int) -> Option<Seq<char>>
    decreases m,
{
    if m <= 0 {
        None
    } else {
        match first_sh_missing(doc, d, m - 1) {
            Some(k) => Some(k),
            None => if sh_pair(m - 1).0 <= d && key_index(doc, sh_key_at(m - 1)) is None {
                Some(sh_key_at(m - 1))
            } else {
                None
            },
        }
    }
}

pub open spec fn o_color_sh(doc: GltfDocument) -> Outcome {
    if rc_layout(doc) {
        if !sh_any(doc, 15) {
            skip_o("no spherical-harmonic coefficients beyond degree 0"@)
        } else {
            match first_sh_problem(doc, 15) {
                Some(d) => fail_o(d),
                None => pass_o(),
            }
        }
    } else {
        o_color_sh_flat(doc)
    }
}

pub open spec fn o_color_sh_flat(doc: GltfDocument) -> Outcome {
    match attr_index(doc, "_COLOR_SH"@) {
        None => skip_o("_COLOR_SH not declared"@),
        Some(idx) => match accessor_at(doc, idx) {
            None => fail_o("accessor "@ + decimal(idx as nat) + " out of range"@),
            Some(acc) => {
                let count = or0(acc.count);
                let pos_count = acc_count_at(doc, "POSITION"@);
                if acc_type(acc) != "SCALAR"@ {
                    fail_o("_COLOR_SH.type="@ + debug_quoted(acc_type(acc)) + ", want SCALAR"@)
                } else if acc_ct(acc) != 5126 {
                    fail_o(
                        "_COLOR_SH.componentType="@ + decimal(acc_ct(acc) as nat)
                            + ", want 5126 (FLOAT)"@,
                    )
                } else if pos_count > 0 && count != pos_count * 45 {
                    fail_o(
                        "_COLOR_SH.count="@ + decimal(count as nat) + ", want "@ + decimal(
                            (pos_count * 45) as nat,
                        ) + " (45 * splat_count)"@,
                    )
                } else {
                    pass_o()
                }
            },
        },
    }
}

pub open spec fn o_position_minmax(doc: GltfDocument) -> Outcome {
    match attr_index(doc, "POSITION"@) {
        Some(i) => match accessor_at(doc, i) {
            Some(acc) => if acc.min_len == Some(3usize) && acc.max_len == Some(3usize) {
                pass_o()
            } else {
                fail_o("POSITION accessor missing min and/or max"@)
            },
            None => skip_o("POSITION accessor absent"@),
        },
        None => skip_o("POSITION accessor absent"@),
    }
}

pub open spec fn o_sh_degree(doc: GltfDocument) -> Outcome {
    if rc_layout(doc) {
        match first_sh_missing(doc, sh_top(doc, 15), 15) {
            Some(k) => fail_o(
                "SH coefficient "@ + k + " missing but degree "@ + decimal(sh_top(doc, 15))
                    + " is declared"@,
            ),
            None => pass_o(),
        }
    } else {
        o_sh_degree_flat(doc)
    }
}

pub open spec fn o_sh_degree_flat(doc: GltfDocument) -> Outcome {
    let prim_sh = match doc.khr_ext {
        Some(e) => e.sh_degree,
        None => None,
    };
    let has_sh = attr_index(doc, "_COLOR_SH"@) is Some;
    match prim_sh {
        None => fail_o("shDegree missing on primitive KHR block"@),
        Some(d) => if d > 3 {
            fail_o("shDegree="@ + decimal(d as nat) + ", must be 0..=3"@)
        } else if !has_sh && d != 0 {
            fail_o("shDegree="@ + decimal(d as nat) + " but _COLOR_SH is absent (must be 0)"@)
        } else {
            pass_o()
        },
    }
}

/// The five per-splat attribute names, in the order the count clause reads them.
pub open spec fn per_splat_names() -> Seq<Seq<char>> {
    seq!["POSITION"@, "_ROTATION"@, "_SCALE"@, "_OPACITY"@, "_COLOR_DC"@]
}

/// `(name, count)` for each of the first `k` per-splat attributes that names
/// an existing accessor.
pub open spec fn splat_counts(doc: GltfDocument, k: int) -> Seq<(Seq<char>, u64)>
    decreases k,
{
    if k <= 0 {
        Seq::empty()
    } else {
        let prev = splat_counts(doc, k - 1);
        let name = per_splat_names()[k - 1];
        match attr_index(doc, name) {
            Some(i) => match accessor_at(doc, i) {
                Some(a) => prev.push((name, or0(a.count))),
                None => prev,
            },
            None => prev,
        }
    }
}

pub open spec fn count_piece(p: (Seq<char>, u64)) -> Seq<char> {
    seq!['('] + debug_quoted(p.0) + seq![',', ' '] + decimal(p.1 as nat) + seq![')']
}

pub open spec fn o_counts_agree(doc: GltfDocument) -> Outcome {
    let counts = splat_counts(doc, 5);
    if counts.len() == 0 {
        skip_o("no per-splat accessors found"@)
    } else if forall|i: int| 0 <= i < counts.len() ==> #[trigger] counts[i].1 == counts[0].1 {
        pass_o()
    } else {
        fail_o("counts disagree: "@ + bracket_list(counts.map_values(|p: (Seq<char>, u64)| count_piece(p))))
    }
}

/// Number of components of an accessor type (0 when unknown).
pub open spec fn type_components(ty: Seq<char>) -> u64 {
    if ty == "SCALAR"@ {
        1
    } else if ty == "VEC2"@ {
        2
    } else if ty == "VEC3"@ {
        3
    } else if ty == "VEC4"@ {
        4
    } else {
        0
    }
}

/// Bytes per component of a glTF component type (0 when unknown).
pub open spec fn component_bytes(ct: u32) -> u64 {
    if ct == 5121 || ct == 5120 {
        1
    } else if ct == 5123 || ct == 5122 {
        2
    } else if ct == 5125 || ct == 5126 {
        4
    } else {
        0
    }
}

/// The bounds problems accessor `i` contributes.
pub open spec fn accessor_problems(doc: GltfDocument, i: int) -> Seq<Seq<char>> {
    let acc = doc.accessors@[i];
    let comps = type_components(acc_type(acc));
    let bpc = component_bytes(acc_ct(acc));
    if comps == 0 || bpc == 0 || acc.buffer_view is None {
        Seq::empty()
    } else {
        let bv_idx = acc.buffer_view->0;
        let need = or0(acc.count) * comps * bpc;
        if bv_idx >= doc.buffer_views@.len() {
            seq![
                "accessor "@ + decimal(i as nat) + " bufferView "@ + decimal(bv_idx as nat)
                    + " out of range"@,
            ]
        } else {
            let bv = doc.buffer_views@[bv_idx as int];
            let bv_len = or0(bv.byte_length);
            let bv_off = or0(bv.byte_offset);
            let buf_idx = or0(bv.buffer);
            let p1 = if need > bv_len {
                seq![
                    "accessor "@ + decimal(i as nat) + " needs "@ + decimal(need as nat)
                        + " bytes but bufferView "@ + decimal(bv_idx as nat) + " has "@ + decimal(
                        bv_len as nat,
                    ),
                ]
            } else {
                Seq::empty()
            };
            let p2 = if buf_idx < doc.buffers@.len() {
                let buf_len = or0(doc.buffers@[buf_idx as int].byte_length);
                if bv_off + bv_len > buf_len {
                    seq![
                        "bufferView "@ + decimal(bv_idx as nat) + " (off="@ + decimal(bv_off as nat)
                            + ", len="@ + decimal(bv_len as nat) + ") overflows buffer "@ + decimal(
                            buf_idx as nat,
                        ) + " (len="@ + decimal(buf_len as nat) + ")"@,
                    ]
                } else {
                    Seq::empty()
                }
            } else {
                seq![
                    "bufferView "@ + decimal(bv_idx as nat) + " refs missing buffer "@ + decimal(
                        buf_idx as nat,
                    ),
                ]
            };
            p1 + p2
        }
    }
}

/// All bounds problems of the first `k` accessors, in order.
pub open spec fn bounds_problems(doc: GltfDocument, k: int) -> Seq<Seq<char>>
    decreases k,
{
    if k <= 0 {
        Seq::empty()
    } else {
        bounds_problems(doc, k - 1) + accessor_problems(doc, k - 1)
    }
}

pub open spec fn o_bufferview_bounds(doc: GltfDocument) -> Outcome {
    let problems = bounds_problems(doc, doc.accessors@.len() as int);
    if problems.len() == 0 {
        pass_o()
    } else {
        fail_o(join(problems, "; "@))
    }
}

pub open spec fn spz_used(doc: GltfDocument) -> bool {
    lists(doc.extensions_used@, spz_name())
}

pub open spec fn o_spz_declared(doc: GltfDocument) -> Outcome {
    if !spz_used(doc) && doc.spz_ext is None {
        skip_o("SPZ not present in asset"@)
    } else if doc.spz_ext is Some && !spz_used(doc) {
        fail_o("primitive declares SPZ but extensionsUsed omits it"@)
    } else {
        pass_o()
    }
}

pub open spec fn o_spz_consistent(doc: GltfDocument) -> Outcome {
    if !spz_used(doc) && doc.spz_ext is None {
        skip_o("SPZ not present in asset"@)
    } else if doc.spz_ext is Some && doc.khr_ext is None {
        fail_o("primitive declares SPZ but not KHR_gaussian_splatting"@)
    } else {
        pass_o()
    }
}

pub open spec fn known_attribute(k: Seq<char>) -> bool {
    k == "POSITION"@ || k == "_ROTATION"@ || k == "_SCALE"@ || k == "_OPACITY"@ || k
        == "_COLOR_DC"@ || k == "_COLOR_SH"@
}

/// `k` is the key of one of the first `m` higher-degree coefficients.
pub open spec fn is_sh_key(k: Seq<char>, m: int) -> bool
    decreases m,
{
    m > 0 && (is_sh_key(k, m - 1) || k == sh_key_at(m - 1))
}

/// The reserved attribute keys of the release-candidate layout.
pub open spec fn known_rc_attribute(k: Seq<char>) -> bool {
    k == "POSITION"@ || k == khr_name() + ":ROTATION"@ || k == khr_name() + ":SCALE"@ || k
        == khr_name() + ":OPACITY"@ || k == sh_key(0, 0) || is_sh_key(k, 15)
}

pub open spec fn known_key(rc: bool, k: Seq<char>) -> bool {
    if rc {
        known_rc_attribute(k)
    } else {
        known_attribute(k)
    }
}

/// Keys of the entries that are not reserved attribute names, in order.
pub open spec fn unknown_keys(a: Seq<AttributeEntry>, rc: bool) -> Seq<Seq<char>>
    decreases a.len(),
{
    if a.len() == 0 {
        Seq::empty()
    } else if known_key(rc, a.last().key@) {
        unknown_keys(a.drop_last(), rc)
    } else {
        unknown_keys(a.drop_last(), rc).push(a.last().key@)
    }
}

pub open spec fn o_known_only(doc: GltfDocument) -> Outcome {
    match attrs_of(doc) {
        None => skip_o("no attributes object"@),
        Some(a) => if unknown_keys(a, rc_layout(doc)).len() == 0 {
            pass_o()
        } else {
            fail_o(
                "unknown attributes: "@ + bracket_list(
                    unknown_keys(a, rc_layout(doc)).map_values(|k: Seq<char>| debug_quoted(k)),
                ),
            )
        },
    }
}

pub open spec fn spz_in_use(doc: GltfDocument) -> bool {
    spz_used(doc) || doc.spz_ext is Some
}

pub open spec fn o_spz_present(doc: GltfDocument) -> Outcome {
    if !spz_in_use(doc) {
        skip_o("SPZ extension not declared"@)
    } else if doc.spz_ext is None {
        fail_o("extensionsUsed contains SPZ but no primitive declares it"@)
    } else {
        pass_o()
    }
}

pub open spec fn spz_field(doc: GltfDocument, which: int) -> Option<u64> {
    match doc.spz_ext {
        Some(e) => if which == 0 {
            e.version
        } else if which == 1 {
            e.buffer_view
        } else {
            e.splat_count
        },
        None => None,
    }
}

pub open spec fn o_spz_version(doc: GltfDocument) -> Outcome {
    if !spz_in_use(doc) {
        skip_o("SPZ extension not declared"@)
    } else {
        match spz_field(doc, 0) {
            None => fail_o("SPZ extension missing version field"@),
            Some(v) => if v == 2 {
                pass_o()
            } else {
                fail_o("SPZ version="@ + decimal(v as nat) + ", want 2 (current SPZ wire format)"@)
            },
        }
    }
}

/// `(buffer, byteOffset, byteLength)` of the SPZ buffer view, when it resolves.
pub open spec fn spz_view(doc: GltfDocument) -> Option<(u64, u64, u64)> {
    match spz_field(doc, 1) {
        Some(idx) => if idx < doc.buffer_views@.len() {
            let bv = doc.buffer_views@[idx as int];
            Some((or0(bv.buffer), or0(bv.byte_offset), or0(bv.byte_length)))
        } else {
            None
        },
        None => None,
    }
}

pub open spec fn o_spz_bufferview(doc: GltfDocument) -> Outcome {
    if !spz_in_use(doc) {
        skip_o("SPZ extension not declared"@)
    } else {
        match spz_field(doc, 1) {
            None => fail_o("SPZ extension missing bufferView"@),
            Some(idx) => if idx >= doc.buffer_views@.len() {
                fail_o("SPZ bufferView "@ + decimal(idx as nat) + " out of range"@)
            } else {
                let bv = doc.buffer_views@[idx as int];
                let off = or0(bv.byte_offset);
                let len = or0(bv.byte_length);
                let buf_idx = or0(bv.buffer);
                let buf_len = if buf_idx < doc.buffers@.len() {
                    or0(doc.buffers@[buf_idx as int].byte_length)
                } else {
                    0
                };
                if off + len > buf_len {
                    fail_o(
                        "SPZ bufferView (off="@ + decimal(off as nat) + ", len="@ + decimal(
                            len as nat,
                        ) + ") overflows buffer "@ + decimal(buf_idx as nat) + " (len="@
                            + decimal(buf_len as nat) + ")"@,
                    )
                } else if len < 16 {
                    fail_o(
                        "SPZ bufferView byteLength="@ + decimal(len as nat)
                            + " < 16 (SPZ header size)"@,
                    )
                } else {
                    pass_o()
                }
            },
        }
    }
}

/// The SPZ magic bytes, `0x5053_4e47` little-endian.
pub open spec fn spz_magic_bytes() -> Seq<u8> {
    seq![0x47u8, 0x4eu8, 0x53u8, 0x50u8]
}

pub open spec fn hex_list(b: Seq<u8>) -> Seq<char> {
    bracket_list(b.map_values(|x: u8| hex2(x)))
}

pub open spec fn o_spz_magic(doc: GltfDocument, bin: Option<Seq<u8>>) -> Outcome {
    if !spz_in_use(doc) {
        skip_o("SPZ extension not declared"@)
    } else {
        match spz_view(doc) {
            None => skip_o("SPZ bufferView did not resolve to a buffer range"@),
            Some((buf, off, len)) => match bin {
                None => skip_o("SPZ blob magic not checkable on .gltf (no BIN chunk)"@),
                Some(b) => if buf != 0 {
                    skip_o(
                        "SPZ bufferView refers to buffer "@ + decimal(buf as nat)
                            + ", not the GLB BIN buffer"@,
                    )
                } else if off + len > b.len() || len < 4 {
                    fail_o(
                        "SPZ bufferView (off="@ + decimal(off as nat) + ", len="@ + decimal(
                            len as nat,
                        ) + ") does not fit in BIN chunk"@,
                    )
                } else if b.subrange(off as int, off + 4) == spz_magic_bytes() {
                    pass_o()
                } else {
                    fail_o(
                        "SPZ blob magic="@ + hex_list(b.subrange(off as int, off + 4)) + ", want "@
                            + hex_list(spz_magic_bytes()) + " (0x5053_4e47 LE)"@,
                    )
                },
            },
        }
    }
}

/// The splat count the primitive declares: the extension's `splatCount`, or
/// else a positive `_OPACITY` accessor count.
pub open spec fn declared_splats(doc: GltfDocument) -> Option<u64> {
    match spz_field(doc, 2) {
        Some(n) => Some(n),
        None => match attr_index(doc, "_OPACITY"@) {
            Some(i) => match accessor_at(doc, i) {
                Some(a) => match a.count {
                    Some(c) => if c > 0 {
                        Some(c)
                    } else {
                        None
                    },
                    None => None,
                },
                None => None,
            },
            None => None,
        },
    }
}

pub open spec fn o_spz_count(doc: GltfDocument, bin: Option<Seq<u8>>) -> Outcome {
    if !spz_in_use(doc) {
        skip_o("SPZ extension not declared"@)
    } else {
        let view = spz_view(doc);
        let declared = declared_splats(doc);
        let header_readable = match (view, bin, declared) {
            (Some((buf, off, len)), Some(b), Some(_)) => buf == 0 && off + 12 <= b.len() && len
                >= 12,
            _ => false,
        };
        if header_readable {
            match (view, bin, declared) {
                (Some((_, off, _)), Some(b), Some(want)) => {
                    let count = crate::bytes::le_u32(b, off + 8);
                    if count == want {
                        pass_o()
                    } else {
                        fail_o(
                            "SPZ header splat_count="@ + decimal(count) + " but primitive declares "@
                                + decimal(want as nat),
                        )
                    }
                },
                _ => pass_o(),
            }
        } else if declared is None {
            skip_o("no primitive splatCount available to compare against"@)
        } else if view is Some && bin is None {
            skip_o("SPZ blob splat_count not checkable on .gltf (no BIN chunk)"@)
        } else if view is None {
            skip_o("SPZ bufferView did not resolve"@)
        } else {
            skip_o("SPZ blob too small for header"@)
        }
    }
}

/// The component types a rotation accessor may have: FLOAT, and under the
/// release-candidate layout also normalized BYTE and SHORT
/// (`KHR_mesh_quantization`).
pub open spec fn rotation_cts(doc: GltfDocument) -> Seq<u32> {
    if rc_layout(doc) {
        seq![5126u32, 5120u32, 5122u32]
    } else {
        seq![5126u32]
    }
}

/// Every clause outcome, in spec order.
pub open spec fn expected_outcomes(doc: GltfDocument, bin: Option<Seq<u8>>) -> Seq<Outcome> {
    seq![
        o_ext_used(doc),
        o_ext_required(doc),
        o_asset_version(doc),
        o_prim_ext(doc),
        o_ext_projection(doc),
        o_ext_sorting(doc),
        o_attrs_object(doc),
        o_present(doc, "POSITION"@),
        o_present(doc, "_ROTATION"@),
        o_present(doc, "_SCALE"@),
        o_present(doc, "_OPACITY"@),
        o_present(doc, "_COLOR_DC"@),
        o_accessor_shape(doc, "POSITION"@, seq!["VEC3"@], float_ints()),
        o_accessor_shape(doc, "_ROTATION"@, seq!["VEC4"@], rotation_cts(doc)),
        o_accessor_shape(doc, "_SCALE"@, seq!["VEC3"@], float_ints()),
        o_accessor_shape(doc, "_OPACITY"@, seq!["SCALAR"@], float_ints()),
        o_accessor_shape(doc, "_COLOR_DC"@, seq!["VEC3"@], float_ints()),
        o_color_sh(doc),
        o_position_minmax(doc),
        o_sh_degree(doc),
        o_counts_agree(doc),
        o_bufferview_bounds(doc),
        o_spz_declared(doc),
        o_spz_consistent(doc),
        o_known_only(doc),
        o_spz_present(doc),
        o_spz_version(doc),
        o_spz_bufferview(doc),
        o_spz_magic(doc, bin),
        o_spz_count(doc, bin),
    ]
}

/// The `_COLOR_SH` clause reaches its count comparison.
pub open spec fn sh_count_checked(doc: GltfDocument) -> bool {
    !rc_layout(doc) && match attr_index(doc, "_COLOR_SH"@) {
        Some(idx) => match accessor_at(doc, idx) {
            Some(acc) => acc_type(acc) == "SCALAR"@ && acc_ct(acc) == 5126 && acc_count_at(
                doc,
                "POSITION"@,
            ) > 0,
            None => false,
        },
        None => false,
    }
}

pub open spec fn spz_view_end_fits(doc: GltfDocument) -> bool {
    match spz_view(doc) {
        Some((_, off, len)) => off + len <= u64::MAX,
        None => true,
    }
}

pub open spec fn spz_header_end_fits(doc: GltfDocument) -> bool {
    match spz_view(doc) {
        Some((buf, off, _)) => buf == 0 ==> off + 12 <= u64::MAX,
        None => true,
    }
}

/// The inputs on which evaluating the clauses stays within machine integers:
/// every size product and offset sum that a clause computes fits in 64 bits.
pub open spec fn clause_arith_fits(doc: GltfDocument, bin: Option<Seq<u8>>) -> bool {
    &&& (forall|i: int|
        0 <= i < doc.accessors@.len() ==> {
            let acc = #[trigger] doc.accessors@[i];
            let comps = type_components(acc_type(acc));
            let bpc = component_bytes(acc_ct(acc));
            (comps != 0 && bpc != 0 && acc.buffer_view is Some) ==> {
                &&& or0(acc.count) * comps * bpc <= u64::MAX
                &&& (acc.buffer_view->0 < doc.buffer_views@.len() && or0(
                    doc.buffer_views@[acc.buffer_view->0 as int].buffer,
                ) < doc.buffers@.len()) ==> or0(
                    doc.buffer_views@[acc.buffer_view->0 as int].byte_offset,
                ) + or0(doc.buffer_views@[acc.buffer_view->0 as int].byte_length) <= u64::MAX
            }
        })
    &&& sh_count_checked(doc) ==> acc_count_at(doc, "POSITION"@) * 45 <= u64::MAX
    &&& (spz_in_use(doc) && spz_view(doc) is Some) ==> spz_view_end_fits(doc)
    &&& (spz_in_use(doc) && bin is Some && declared_splats(doc) is Some) ==> spz_header_end_fits(doc)
}

/* ---------- evaluation ---------- */

fn mk(c: Clause, status: Status, detail: Option<String>) -> (r: ClauseResult)
    ensures
        r.id@ == clause_id(c),
        r.status == status,
        opt_str(r.detail) == opt_str(detail),
{
    ClauseResult { id: lit(c.id()), status, detail }
}

fn pass(c: Clause) -> (r: ClauseResult)
    ensures
        reports(r, c, pass_o()),
{
    mk(c, Status::Pass, None)
}

fn fail(c: Clause, d: String) -> (r: ClauseResult)
    ensures
        reports(r, c, fail_o(d@)),
{
    let ghost dv = d@;
    mk(c, Status::Fail, Some(d))
}

fn skip(c: Clause, d: String) -> (r: ClauseResult)
    ensures
        reports(r, c, skip_o(d@)),
{
    let ghost dv = d@;
    mk(c, Status::Skip, Some(d))
}

fn rc_layout_exec(doc: &GltfDocument) -> (r: bool)
    ensures
        r == rc_layout(*doc),
{
    match &doc.khr_ext {
        Some(e) => e.attributes.is_none(),
        None => true,
    }
}

fn attrs_ref(doc: &GltfDocument) -> (r: Option<&Vec<AttributeEntry>>)
    ensures
        match r {
            Some(a) => attrs_of(*doc) == Some(a@),
            None => attrs_of(*doc) is None,
        },
{
    if rc_layout_exec(doc) {
        match &doc.prim_attributes {
            Some(a) => Some(a),
            None => None,
        }
    } else {
        match &doc.khr_ext {
            Some(e) => match &e.attributes {
                Some(a) => Some(a),
                None => None,
            },
            None => None,
        }
    }
}

/// `KHR_gaussian_splatting` followed by `suffix`.
fn khr_key(suffix: &str) -> (r: String)
    ensures
        r@ == khr_name() + suffix@,
{
    let mut k = lit("KHR_gaussian_splatting");
    append_str(&mut k, suffix);
    k
}

fn sh_key_exec(l: u64, k: u64) -> (r: String)
    ensures
        r@ == sh_key(l as nat, k as nat),
{
    let mut s = khr_key(":SH_DEGREE_");
    push_decimal(&mut s, l);
    append_str(&mut s, "_COEF_");
    push_decimal(&mut s, k);
    s
}

fn sh_pair_exec(i: usize) -> (r: (u64, u64))
    requires
        i < 15,
    ensures
        r.0 as nat == sh_pair(i as int).0,
        r.1 as nat == sh_pair(i as int).1,
        1 <= r.0 <= 3,
{
    if i < 3 {
        (1, i as u64)
    } else if i < 8 {
        (2, (i - 3) as u64)
    } else {
        (3, (i - 8) as u64)
    }
}

fn sh_key_at_exec(i: usize) -> (r: String)
    requires
        i < 15,
    ensures
        r@ == sh_key_at(i as int),
{
    let (l, k) = sh_pair_exec(i);
    sh_key_exec(l, k)
}

fn key_for_exec(doc: &GltfDocument, name: &str) -> (r: String)
    ensures
        r@ == key_for(*doc, name@),
{
    if !rc_layout_exec(doc) {
        lit(name)
    } else if str_eq(name, "_ROTATION") {
        khr_key(":ROTATION")
    } else if str_eq(name, "_SCALE") {
        khr_key(":SCALE")
    } else if str_eq(name, "_OPACITY") {
        khr_key(":OPACITY")
    } else if str_eq(name, "_COLOR_DC") {
        sh_key_exec(0, 0)
    } else {
        lit(name)
    }
}

fn lookup_key(doc: &GltfDocument, key: &str) -> (r: Option<u64>)
    ensures
        r == key_index(*doc, key@),
{
    match attrs_ref(doc) {
        None => None,
        Some(a) => {
            let mut i: usize = 0;
            assert(a@.subrange(0, a@.len() as int) == a@);
            while i < a.len()
                invariant
                    i <= a@.len(),
                    attrs_of(*doc) == Some(a@),
                    lookup_attr(a@, key@) == lookup_attr(a@.subrange(i as int, a@.len() as int), key@),
                decreases a@.len() - i,
            {
                let ghost rest = a@.subrange(i as int, a@.len() as int);
                assert(rest[0] == a@[i as int]);
                assert(rest.drop_first() == a@.subrange(i + 1, a@.len() as int));
                if str_eq(a[i].key.as_str(), key) {
                    return a[i].index;
                }
                i += 1;
            }
            None
        },
    }
}

fn lookup_index(doc: &GltfDocument, name: &str) -> (r: Option<u64>)
    ensures
        r == attr_index(*doc, name@),
{
    let key = key_for_exec(doc, name);
    lookup_key(doc, key.as_str())
}

fn accessor_ref(doc: &GltfDocument, idx: u64) -> (r: Option<&JsonAccessor>)
    ensures
        match r {
            Some(a) => accessor_at(*doc, idx) == Some(*a),
            None => accessor_at(*doc, idx) is None,
        },
{
    if idx < doc.accessors.len() as u64 {
        Some(&doc.accessors[idx as usize])
    } else {
        None
    }
}

fn type_of(a: &JsonAccessor) -> (r: &str)
    ensures
        r@ == acc_type(*a),
{
    match &a.type_str {
        Some(s) => s.as_str(),
        None => {
            proof {
                reveal_strlit("");
            }
            ""
        },
    }
}

fn ct_of(a: &JsonAccessor) -> (r: u32)
    ensures
        r == acc_ct(*a),
{
    match a.component_type {
        Some(v) => (v % 4294967296) as u32,
        None => 0,
    }
}

fn count_of(a: &JsonAccessor) -> (r: u64)
    ensures
        r == or0(a.count),
{
    match a.count {
        Some(v) => v,
        None => 0,
    }
}

fn opt_or0(o: Option<u64>) -> (r: u64)
    ensures
        r == or0(o),
{
    match o {
        Some(v) => v,
        None => 0,
    }
}

fn eval_ext_used(doc: &GltfDocument) -> (r: ClauseResult)
    ensures
        reports(r, Clause::ExtUsed, o_ext_used(*doc)),
{
    if contains_str(&doc.extensions_used, "KHR_gaussian_splatting") {
        pass(Clause::ExtUsed)
    } else {
        fail(Clause::ExtUsed, lit("KHR_gaussian_splatting not in extensionsUsed"))
    }
}

fn eval_ext_required(doc: &GltfDocument) -> (r: ClauseResult)
    ensures
        reports(r, Clause::ExtRequired, o_ext_required(*doc)),
{
    if contains_str(&doc.extensions_required, "KHR_gaussian_splatting") {
        pass(Clause::ExtRequired)
    } else {
        skip(Clause::ExtRequired, lit("KHR_gaussian_splatting not in extensionsRequired (optional)"))
    }
}

fn eval_asset_version(doc: &GltfDocument) -> (r: ClauseResult)
    ensures
        reports(r, Clause::AssetVersion, o_asset_version(*doc)),
{
    match &doc.asset_version {
        Some(v) => if str_eq(v.as_str(), "2.0") {
            pass(Clause::AssetVersion)
        } else {
            let mut d = lit("asset.version is ");
            push_debug(&mut d, v.as_str());
            append_str(&mut d, ", want \"2.0\"");
            fail(Clause::AssetVersion, d)
        },
        None => fail(Clause::AssetVersion, lit("asset.version missing")),
    }
}

fn eval_prim_ext(doc: &GltfDocument) -> (r: ClauseResult)
    ensures
        reports(r, Clause::PrimitiveExtensionPresent, o_prim_ext(*doc)),
{
    if doc.khr_ext.is_some() {
        pass(Clause::PrimitiveExtensionPresent)
    } else {
        fail(Clause::PrimitiveExtensionPresent, lit("no primitive declares KHR_gaussian_splatting"))
    }
}

fn has_attrs(doc: &GltfDocument) -> (r: bool)
    ensures
        r == (attrs_of(*doc) is Some),
{
    attrs_ref(doc).is_some()
}

fn eval_ext_member(
    doc: &GltfDocument,
    c: Clause,
    member: &Option<Option<String>>,
    field: &str,
    want: &str,
) -> (r: ClauseResult)
    ensures
        reports(r, c, o_ext_member(*doc, *member, field@, want@)),
{
    if doc.khr_ext.is_none() {
        return skip(c, lit("no KHR_gaussian_splatting block"));
    }
    match member {
        None => {
            let mut d = lit(field);
            append_str(&mut d, " omitted (defaults to ");
            append_str(&mut d, want);
            append_str(&mut d, ")");
            skip(c, d)
        },
        Some(None) => {
            let mut d = lit(field);
            append_str(&mut d, " is not a string");
            fail(c, d)
        },
        Some(Some(v)) => if str_eq(v.as_str(), want) {
            pass(c)
        } else {
            let mut d = lit(field);
            append_str(&mut d, "=");
            push_debug(&mut d, v.as_str());
            append_str(&mut d, ", want ");
            push_debug(&mut d, want);
            fail(c, d)
        },
    }
}

fn eval_ext_projection(doc: &GltfDocument) -> (r: ClauseResult)
    ensures
        reports(r, Clause::ExtProjection, o_ext_projection(*doc)),
{
    let none: Option<Option<String>> = None;
    let m = match &doc.khr_ext {
        Some(e) => &e.projection,
        None => &none,
    };
    eval_ext_member(doc, Clause::ExtProjection, m, "projection", "perspective")
}

fn eval_ext_sorting(doc: &GltfDocument) -> (r: ClauseResult)
    ensures
        reports(r, Clause::ExtSorting, o_ext_sorting(*doc)),
{
    let none: Option<Option<String>> = None;
    let m = match &doc.khr_ext {
        Some(e) => &e.sorting_method,
        None => &none,
    };
    eval_ext_member(doc, Clause::ExtSorting, m, "sortingMethod", "cameraDistance")
}

fn eval_attrs_object(doc: &GltfDocument) -> (r: ClauseResult)
    ensures
        reports(r, Clause::AttributesObjectPresent, o_attrs_object(*doc)),
{
    if has_attrs(doc) {
        pass(Clause::AttributesObjectPresent)
    } else {
        fail(Clause::AttributesObjectPresent, lit("no attributes object on KHR block"))
    }
}

fn eval_present(doc: &GltfDocument, c: Clause, name: &str) -> (r: ClauseResult)
    ensures
        reports(r, c, o_present(*doc, name@)),
{
    if lookup_index(doc, name).is_some() {
        pass(c)
    } else {
        let key = key_for_exec(doc, name);
        let mut d = lit("attribute ");
        append_str(&mut d, key.as_str());
        append_str(&mut d, " missing");
        fail(c, d)
    }
}

/// The component types of kind `kind`: FLOAT only (0), FLOAT or normalized
/// unsigned integers (1), FLOAT or normalized signed integers (2).
pub open spec fn cts_of(kind: u8) -> Seq<u32> {
    if kind == 0 {
        seq![5126u32]
    } else if kind == 1 {
        float_ints()
    } else {
        seq![5126u32, 5120u32, 5122u32]
    }
}

fn eval_accessor_shape(doc: &GltfDocument, c: Clause, name: &str, want_type: &str, kind: u8) -> (r: ClauseResult)
    requires
        kind <= 2,
    ensures
        reports(r, c, o_accessor_shape(*doc, name@, seq![want_type@], cts_of(kind))),
{
    let ghost want_cts = cts_of(kind);
    match lookup_index(doc, name) {
        None => {
            let mut d = lit(name);
            append_str(&mut d, " accessor absent");
            skip(c, d)
        },
        Some(idx) => match accessor_ref(doc, idx) {
            None => {
                let mut d = lit("accessor index ");
                push_decimal(&mut d, idx);
                append_str(&mut d, " out of range");
                fail(c, d)
            },
            Some(acc) => {
                let ty = type_of(acc);
                let ct = ct_of(acc);
                if !str_eq(ty, want_type) {
                    proof {
                        assert(!seq![want_type@].contains(ty@)) by {
                            if seq![want_type@].contains(ty@) {
                                assert(seq![want_type@][0] == want_type@);
                            }
                        }
                    }
                    let mut d = lit(name);
                    append_str(&mut d, ".type=");
                    push_debug(&mut d, ty);
                    append_str(&mut d, ", want one of ");
                    let mut pieces: Vec<String> = Vec::new();
                    pieces.push(debug_str(want_type));
                    let l = bracket_join(&pieces);
                    proof {
                        assert(strs_view(pieces@) =~= seq![want_type@].map_values(|t: Seq<char>| debug_quoted(t)));
                    }
                    append_str(&mut d, l.as_str());
                    fail(c, d)
                } else {
                    proof {
                        assert(seq![want_type@][0] == ty@);
                        assert(seq![want_type@].contains(ty@));
                    }
                    let ok = if kind == 0 {
                        ct == 5126
                    } else if kind == 1 {
                        ct == 5126 || ct == 5121 || ct == 5123
                    } else {
                        ct == 5126 || ct == 5120 || ct == 5122
                    };
                    proof {
                        if ok {
                            if kind == 0 {
                                assert(want_cts[0] == ct);
                            } else if kind == 1 {
                                if ct == 5126 { assert(want_cts[0] == ct); }
                                else if ct == 5121 { assert(want_cts[1] == ct); }
                                else { assert(want_cts[2] == ct); }
                            } else {
                                if ct == 5126 { assert(want_cts[0] == ct); }
                                else if ct == 5120 { assert(want_cts[1] == ct); }
                                else { assert(want_cts[2] == ct); }
                            }
                        }
                        if want_cts.contains(ct) {
                            let k = choose|k: int| 0 <= k < want_cts.len() && want_cts[k] == ct;
                            assert(ok);
                        }
                    }
                    if !ok {
                        let mut d = lit(name);
                        append_str(&mut d, ".componentType=");
                        push_decimal(&mut d, ct as u64);
                        append_str(&mut d, ", want one of ");
                        let mut pieces: Vec<String> = Vec::new();
                        pieces.push(decimal_string(5126));
                        if kind == 1 {
                            pieces.push(decimal_string(5121));
                            pieces.push(decimal_string(5123));
                        } else if kind == 2 {
                            pieces.push(decimal_string(5120));
                            pieces.push(decimal_string(5122));
                        }
                        let l = bracket_join(&pieces);
                        proof {
                            assert(strs_view(pieces@) =~= want_cts.map_values(|x: u32| decimal(x as nat)));
                        }
                        append_str(&mut d, l.as_str());
                        fail(c, d)
                    } else {
                        pass(c)
                    }
                }
            },
        },
    }
}

fn sh_coef_problem_exec(doc: &GltfDocument, key: &str) -> (r: Option<String>)
    ensures
        opt_str(r) == sh_coef_problem(*doc, key@),
{
    match lookup_key(doc, key) {
        None => None,
        Some(idx) => match accessor_ref(doc, idx) {
            None => {
                let mut d = lit("accessor ");
                push_decimal(&mut d, idx);
                append_str(&mut d, " out of range");
                Some(d)
            },
            Some(acc) => {
                let ty = type_of(acc);
                let ct = ct_of(acc);
                let count = count_of(acc);
                let pos = position_count(doc);
                let ok_ct = ct == 5126 || ct == 5121 || ct == 5123;
                proof {
                    let w = float_ints();
                    if ok_ct {
                        if ct == 5126 { assert(w[0] == ct); }
                        else if ct == 5121 { assert(w[1] == ct); }
                        else { assert(w[2] == ct); }
                    }
                    if w.contains(ct) {
                        let k = choose|k: int| 0 <= k < w.len() && w[k] == ct;
                        assert(ok_ct);
                    }
                }
                if !str_eq(ty, "VEC3") {
                    let mut d = lit(key);
                    append_str(&mut d, ".type=");
                    push_debug(&mut d, ty);
                    append_str(&mut d, ", want VEC3");
                    Some(d)
                } else if !ok_ct {
                    let mut d = lit(key);
                    append_str(&mut d, ".componentType=");
                    push_decimal(&mut d, ct as u64);
                    append_str(&mut d, ", want one of [5126, 5121, 5123]");
                    Some(d)
                } else if count != pos {
                    let mut d = lit(key);
                    append_str(&mut d, ".count=");
                    push_decimal(&mut d, count);
                    append_str(&mut d, ", want ");
                    push_decimal(&mut d, pos);
                    append_str(&mut d, " (one per splat)");
                    Some(d)
                } else {
                    None
                }
            },
        },
    }
}

fn eval_color_sh(doc: &GltfDocument) -> (r: ClauseResult)
    requires
        sh_count_checked(*doc) ==> acc_count_at(*doc, "POSITION"@) * 45 <= u64::MAX,
    ensures
        reports(r, Clause::ColorShAccessor, o_color_sh(*doc)),
{
    if !rc_layout_exec(doc) {
        return eval_color_sh_flat(doc);
    }
    let c = Clause::ColorShAccessor;
    let mut any = false;
    let mut prob: Option<String> = None;
    let mut i: usize = 0;
    while i < 15
        invariant
            i <= 15,
            any == sh_any(*doc, i as int),
            opt_str(prob) == first_sh_problem(*doc, i as int),
        decreases 15 - i,
    {
        let key = sh_key_at_exec(i);
        if lookup_key(doc, key.as_str()).is_some() {
            any = true;
        }
        if prob.is_none() {
            prob = sh_coef_problem_exec(doc, key.as_str());
        }
        i += 1;
    }
    if !any {
        skip(c, lit("no spherical-harmonic coefficients beyond degree 0"))
    } else {
        match prob {
            Some(d) => fail(c, d),
            None => pass(c),
        }
    }
}

fn eval_color_sh_flat(doc: &GltfDocument) -> (r: ClauseResult)
    requires
        !rc_layout(*doc),
        sh_count_checked(*doc) ==> acc_count_at(*doc, "POSITION"@) * 45 <= u64::MAX,
    ensures
        reports(r, Clause::ColorShAccessor, o_color_sh(*doc)),
{
    let c = Clause::ColorShAccessor;
    match lookup_index(doc, "_COLOR_SH") {
        None => skip(c, lit("_COLOR_SH not declared")),
        Some(idx) => match accessor_ref(doc, idx) {
            None => {
                let mut d = lit("accessor ");
                push_decimal(&mut d, idx);
                append_str(&mut d, " out of range");
                fail(c, d)
            },
            Some(acc) => {
                let ty = type_of(acc);
                let ct = ct_of(acc);
                let count = count_of(acc);
                let pos_count = match lookup_index(doc, "POSITION") {
                    Some(i) => match accessor_ref(doc, i) {
                        Some(a) => count_of(a),
                        None => 0,
                    },
                    None => 0,
                };
                if !str_eq(ty, "SCALAR") {
                    let mut d = lit("_COLOR_SH.type=");
                    push_debug(&mut d, ty);
                    append_str(&mut d, ", want SCALAR");
                    fail(c, d)
                } else if ct != 5126 {
                    let mut d = lit("_COLOR_SH.componentType=");
                    push_decimal(&mut d, ct as u64);
                    append_str(&mut d, ", want 5126 (FLOAT)");
                    fail(c, d)
                } else if pos_count > 0 && count != pos_count * 45 {
                    let mut d = lit("_COLOR_SH.count=");
                    push_decimal(&mut d, count);
                    append_str(&mut d, ", want ");
                    push_decimal(&mut d, pos_count * 45);
                    append_str(&mut d, " (45 * splat_count)");
                    fail(c, d)
                } else {
                    pass(c)
                }
            },
        },
    }
}

fn eval_position_minmax(doc: &GltfDocument) -> (r: ClauseResult)
    ensures
        reports(r, Clause::PositionMinMax, o_position_minmax(*doc)),
{
    let c = Clause::PositionMinMax;
    let found = match lookup_index(doc, "POSITION") {
        Some(i) => accessor_ref(doc, i),
        None => None,
    };
    match found {
        Some(acc) => {
            let has_min = match acc.min_len {
                Some(n) => n == 3,
                None => false,
            };
            let has_max = match acc.max_len {
                Some(n) => n == 3,
                None => false,
            };
            if has_min && has_max {
                pass(c)
            } else {
                fail(c, lit("POSITION accessor missing min and/or max"))
            }
        },
        None => skip(c, lit("POSITION accessor absent")),
    }
}

fn eval_sh_degree(doc: &GltfDocument) -> (r: ClauseResult)
    ensures
        reports(r, Clause::ShDegreeRange, o_sh_degree(*doc)),
{
    if !rc_layout_exec(doc) {
        return eval_sh_degree_flat(doc);
    }
    let c = Clause::ShDegreeRange;
    let mut top: u64 = 0;
    let mut i: usize = 0;
    while i < 15
        invariant
            i <= 15,
            top as nat == sh_top(*doc, i as int),
            top <= 3,
        decreases 15 - i,
    {
        let key = sh_key_at_exec(i);
        if lookup_key(doc, key.as_str()).is_some() {
            let (l, _) = sh_pair_exec(i);
            top = l;
        }
        i += 1;
    }
    let mut miss: Option<String> = None;
    let mut j: usize = 0;
    while j < 15
        invariant
            j <= 15,
            top as nat == sh_top(*doc, 15),
            opt_str(miss) == first_sh_missing(*doc, top as nat, j as int),
        decreases 15 - j,
    {
        if miss.is_none() {
            let (l, _) = sh_pair_exec(j);
            let key = sh_key_at_exec(j);
            if l <= top && lookup_key(doc, key.as_str()).is_none() {
                miss = Some(key);
            }
        }
        j += 1;
    }
    match miss {
        Some(k) => {
            let mut d = lit("SH coefficient ");
            append_str(&mut d, k.as_str());
            append_str(&mut d, " missing but degree ");
            push_decimal(&mut d, top);
            append_str(&mut d, " is declared");
            fail(c, d)
        },
        None => pass(c),
    }
}

fn eval_sh_degree_flat(doc: &GltfDocument) -> (r: ClauseResult)
    requires
        !rc_layout(*doc),
    ensures
        reports(r, Clause::ShDegreeRange, o_sh_degree(*doc)),
{
    let c = Clause::ShDegreeRange;
    let prim_sh = match &doc.khr_ext {
        Some(e) => e.sh_degree,
        None => None,
    };
    let has_sh = lookup_index(doc, "_COLOR_SH").is_some();
    match prim_sh {
        None => fail(c, lit("shDegree missing on primitive KHR block")),
        Some(d) => if d > 3 {
            let mut s = lit("shDegree=");
            push_decimal(&mut s, d);
            append_str(&mut s, ", must be 0..=3");
            fail(c, s)
        } else if !has_sh && d != 0 {
            let mut s = lit("shDegree=");
            push_decimal(&mut s, d);
            append_str(&mut s, " but _COLOR_SH is absent (must be 0)");
            fail(c, s)
        } else {
            pass(c)
        },
    }
}

fn add_count(
    doc: &GltfDocument,
    name: &str,
    Ghost(k): Ghost<int>,
    counts: &mut Vec<u64>,
    pieces: &mut Vec<String>,
)
    requires
        0 <= k < 5,
        per_splat_names()[k] == name@,
        old(counts)@ == splat_counts(*doc, k).map_values(|p: (Seq<char>, u64)| p.1),
        strs_view(old(pieces)@) == splat_counts(*doc, k).map_values(
            |p: (Seq<char>, u64)| count_piece(p),
        ),
    ensures
        final(counts)@ == splat_counts(*doc, k + 1).map_values(|p: (Seq<char>, u64)| p.1),
        strs_view(final(pieces)@) == splat_counts(*doc, k + 1).map_values(
            |p: (Seq<char>, u64)| count_piece(p),
        ),
{
    let ghost prev = splat_counts(*doc, k);
    match lookup_index(doc, name) {
        Some(i) => match accessor_ref(doc, i) {
            Some(a) => {
                let n = count_of(a);
                counts.push(n);
                let mut p = lit("(");
                push_debug(&mut p, name);
                append_str(&mut p, ", ");
                push_decimal(&mut p, n);
                append_str(&mut p, ")");
                proof {
                    reveal_strlit("(");
                    reveal_strlit(", ");
                    reveal_strlit(")");
                    assert(p@ == count_piece((name@, n)));
                }
                let ghost before = pieces@;
                let ghost pv = p@;
                pieces.push(p);
                proof {
                    let next = prev.push((name@, n));
                    assert(strs_view(before) == prev.map_values(|q: (Seq<char>, u64)| count_piece(q)));
                    assert(strs_view(before).len() == before.len());
                    assert(before.len() == prev.len());
                    assert forall|j: int| 0 <= j < before.len() implies strs_view(pieces@)[j] == next.map_values(|q: (Seq<char>, u64)| count_piece(q))[j] by {
                        assert(pieces@[j] == before[j]);
                        assert(strs_view(before)[j] == before[j]@);
                        assert(next[j] == prev[j]);
                    }
                    assert(strs_view(pieces@)[before.len() as int] == pv);
                    assert(splat_counts(*doc, k + 1) == next);
                    assert(counts@ =~= next.map_values(|q: (Seq<char>, u64)| q.1));
                    assert(strs_view(pieces@) =~= next.map_values(|q: (Seq<char>, u64)| count_piece(q)));
                }
            },
            None => {
                assert(splat_counts(*doc, k + 1) == prev);
            },
        },
        None => {
            assert(splat_counts(*doc, k + 1) == prev);
        },
    }
}

fn eval_counts_agree(doc: &GltfDocument) -> (r: ClauseResult)
    ensures
        reports(r, Clause::AccessorCountsAgree, o_counts_agree(*doc)),
{
    let c = Clause::AccessorCountsAgree;
    let mut counts: Vec<u64> = Vec::new();
    let mut pieces: Vec<String> = Vec::new();
    proof {
        assert(counts@ =~= splat_counts(*doc, 0).map_values(|p: (Seq<char>, u64)| p.1));
        assert(strs_view(pieces@) =~= splat_counts(*doc, 0).map_values(|p: (Seq<char>, u64)| count_piece(p)));
    }
    add_count(doc, "POSITION", Ghost(0), &mut counts, &mut pieces);
    add_count(doc, "_ROTATION", Ghost(1), &mut counts, &mut pieces);
    add_count(doc, "_SCALE", Ghost(2), &mut counts, &mut pieces);
    add_count(doc, "_OPACITY", Ghost(3), &mut counts, &mut pieces);
    add_count(doc, "_COLOR_DC", Ghost(4), &mut counts, &mut pieces);
    let ghost cs = splat_counts(*doc, 5);
    assert(counts@.len() == cs.len());
    if counts.len() == 0 {
        return skip(c, lit("no per-splat accessors found"));
    }
    let first = counts[0];
    let mut i: usize = 1;
    let mut all_same = true;
    while i < counts.len()
        invariant
            1 <= i <= counts@.len(),
            counts@ == cs.map_values(|p: (Seq<char>, u64)| p.1),
            first == cs[0].1,
            all_same == (forall|j: int| 0 <= j < i ==> #[trigger] cs[j].1 == cs[0].1),
        decreases counts@.len() - i,
    {
        assert(counts@[i as int] == cs[i as int].1);
        if counts[i] != first {
            all_same = false;
        }
        i += 1;
    }
    if all_same {
        pass(c)
    } else {
        let mut d = lit("counts disagree: ");
        let l = bracket_join(&pieces);
        append_str(&mut d, l.as_str());
        fail(c, d)
    }
}

fn components_of(ty: &str) -> (r: u64)
    ensures
        r == type_components(ty@),
{
    if str_eq(ty, "SCALAR") {
        1
    } else if str_eq(ty, "VEC2") {
        2
    } else if str_eq(ty, "VEC3") {
        3
    } else if str_eq(ty, "VEC4") {
        4
    } else {
        0
    }
}

fn bytes_per_component(ct: u32) -> (r: u64)
    ensures
        r == component_bytes(ct),
{
    if ct == 5121 || ct == 5120 {
        1
    } else if ct == 5123 || ct == 5122 {
        2
    } else if ct == 5125 || ct == 5126 {
        4
    } else {
        0
    }
}

fn push_accessor_problems(doc: &GltfDocument, Ghost(bin): Ghost<Option<Seq<u8>>>, i: usize, problems: &mut Vec<String>)
    requires
        i < doc.accessors@.len(),
        clause_arith_fits(*doc, bin),
    ensures
        strs_view(final(problems)@) == strs_view(old(problems)@) + accessor_problems(*doc, i as int),
{
    let acc = &doc.accessors[i];
    let comps = components_of(type_of(acc));
    let bpc = bytes_per_component(ct_of(acc));
    let ghost before = strs_view(problems@);
    if comps == 0 || bpc == 0 || acc.buffer_view.is_none() {
        assert(accessor_problems(*doc, i as int) =~= Seq::<Seq<char>>::empty());
        assert(strs_view(problems@) =~= before + accessor_problems(*doc, i as int));
        return;
    }
    let bv_idx = match acc.buffer_view {
        Some(v) => v,
        None => 0,
    };
    assert(doc.accessors@[i as int] == *acc);
    let need = count_of(acc) * comps * bpc;
    if bv_idx >= doc.buffer_views.len() as u64 {
        let mut d = lit("accessor ");
        push_decimal(&mut d, i as u64);
        append_str(&mut d, " bufferView ");
        push_decimal(&mut d, bv_idx);
        append_str(&mut d, " out of range");
        let ghost dv = d@;
        problems.push(d);
        assert(strs_view(problems@) =~= before + seq![dv]);
        return;
    }
    let bv = &doc.buffer_views[bv_idx as usize];
    let bv_len = opt_or0(bv.byte_length);
    let bv_off = opt_or0(bv.byte_offset);
    let buf_idx = opt_or0(bv.buffer);
    let ghost p1: Seq<Seq<char>> = if need > bv_len { seq![
        "accessor "@ + decimal(i as nat) + " needs "@ + decimal(need as nat)
            + " bytes but bufferView "@ + decimal(bv_idx as nat) + " has "@ + decimal(bv_len as nat),
    ] } else { Seq::empty() };
    if need > bv_len {
        let mut d = lit("accessor ");
        push_decimal(&mut d, i as u64);
        append_str(&mut d, " needs ");
        push_decimal(&mut d, need);
        append_str(&mut d, " bytes but bufferView ");
        push_decimal(&mut d, bv_idx);
        append_str(&mut d, " has ");
        push_decimal(&mut d, bv_len);
        problems.push(d);
    }
    assert(strs_view(problems@) =~= before + p1);
    if buf_idx < doc.buffers.len() as u64 {
        let buf_len = opt_or0(doc.buffers[buf_idx as usize].byte_length);
        if bv_off + bv_len > buf_len {
            let mut d = lit("bufferView ");
            push_decimal(&mut d, bv_idx);
            append_str(&mut d, " (off=");
            push_decimal(&mut d, bv_off);
            append_str(&mut d, ", len=");
            push_decimal(&mut d, bv_len);
            append_str(&mut d, ") overflows buffer ");
            push_decimal(&mut d, buf_idx);
            append_str(&mut d, " (len=");
            push_decimal(&mut d, buf_len);
            append_str(&mut d, ")");
            let ghost dv = d@;
            let ghost mid = strs_view(problems@);
            problems.push(d);
            assert(strs_view(problems@) =~= mid + seq![dv]);
        }
    } else {
        let mut d = lit("bufferView ");
        push_decimal(&mut d, bv_idx);
        append_str(&mut d, " refs missing buffer ");
        push_decimal(&mut d, buf_idx);
        let ghost dv = d@;
        let ghost mid = strs_view(problems@);
        problems.push(d);
        assert(strs_view(problems@) =~= mid + seq![dv]);
    }
    assert(strs_view(problems@) =~= before + accessor_problems(*doc, i as int));
}

fn eval_bufferview_bounds(doc: &GltfDocument, Ghost(bin): Ghost<Option<Seq<u8>>>) -> (r: ClauseResult)
    requires
        clause_arith_fits(*doc, bin),
    ensures
        reports(r, Clause::BufferViewBounds, o_bufferview_bounds(*doc)),
{
    let mut problems: Vec<String> = Vec::new();
    let mut i: usize = 0;
    assert(strs_view(problems@) =~= bounds_problems(*doc, 0));
    while i < doc.accessors.len()
        invariant
            i <= doc.accessors@.len(),
            clause_arith_fits(*doc, bin),
            strs_view(problems@) == bounds_problems(*doc, i as int),
        decreases doc.accessors@.len() - i,
    {
        push_accessor_problems(doc, Ghost(bin), i, &mut problems);
        i += 1;
    }
    if problems.len() == 0 {
        pass(Clause::BufferViewBounds)
    } else {
        let d = join_strings(&problems, "; ");
        fail(Clause::BufferViewBounds, d)
    }
}

fn spz_used_exec(doc: &GltfDocument) -> (r: bool)
    ensures
        r == spz_used(*doc),
{
    contains_str(&doc.extensions_used, "KHR_gaussian_splatting_compression_spz")
}

fn eval_spz_declared(doc: &GltfDocument) -> (r: ClauseResult)
    ensures
        reports(r, Clause::SpzExtensionDeclared, o_spz_declared(*doc)),
{
    let c = Clause::SpzExtensionDeclared;
    let used = spz_used_exec(doc);
    let declares = doc.spz_ext.is_some();
    if !used && !declares {
        skip(c, lit("SPZ not present in asset"))
    } else if declares && !used {
        fail(c, lit("primitive declares SPZ but extensionsUsed omits it"))
    } else {
        pass(c)
    }
}

fn eval_spz_consistent(doc: &GltfDocument) -> (r: ClauseResult)
    ensures
        reports(r, Clause::SpzExtensionConsistent, o_spz_consistent(*doc)),
{
    let c = Clause::SpzExtensionConsistent;
    let used = spz_used_exec(doc);
    let declares = doc.spz_ext.is_some();
    if !used && !declares {
        skip(c, lit("SPZ not present in asset"))
    } else if declares && doc.khr_ext.is_none() {
        fail(c, lit("primitive declares SPZ but not KHR_gaussian_splatting"))
    } else {
        pass(c)
    }
}

fn is_known_attribute(k: &str) -> (r: bool)
    ensures
        r == known_attribute(k@),
{
    str_eq(k, "POSITION") || str_eq(k, "_ROTATION") || str_eq(k, "_SCALE") || str_eq(k, "_OPACITY")
        || str_eq(k, "_COLOR_DC") || str_eq(k, "_COLOR_SH")
}

fn is_known_rc_attribute(k: &str) -> (r: bool)
    ensures
        r == known_rc_attribute(k@),
{
    let rot = khr_key(":ROTATION");
    let sc = khr_key(":SCALE");
    let op = khr_key(":OPACITY");
    let dc = sh_key_exec(0, 0);
    let mut found = false;
    let mut i: usize = 0;
    while i < 15
        invariant
            i <= 15,
            found == is_sh_key(k@, i as int),
        decreases 15 - i,
    {
        let key = sh_key_at_exec(i);
        if str_eq(k, key.as_str()) {
            found = true;
        }
        i += 1;
    }
    str_eq(k, "POSITION") || str_eq(k, rot.as_str()) || str_eq(k, sc.as_str()) || str_eq(k, op.as_str())
        || str_eq(k, dc.as_str()) || found
}

fn is_known_key(rc: bool, k: &str) -> (r: bool)
    ensures
        r == known_key(rc, k@),
{
    if rc {
        is_known_rc_attribute(k)
    } else {
        is_known_attribute(k)
    }
}

fn eval_known_only(doc: &GltfDocument) -> (r: ClauseResult)
    ensures
        reports(r, Clause::NoUnknownAttributes, o_known_only(*doc)),
{
    let c = Clause::NoUnknownAttributes;
    let rc = rc_layout_exec(doc);
    let attrs = attrs_ref(doc);
    match attrs {
        None => skip(c, lit("no attributes object")),
        Some(a) => {
            let mut unknown: Vec<String> = Vec::new();
            let mut i: usize = 0;
            assert(strs_view(unknown@) =~= unknown_keys(a@.subrange(0, 0), rc));
            while i < a.len()
                invariant
                    i <= a@.len(),
                    attrs_of(*doc) == Some(a@),
                    rc == rc_layout(*doc),
                    strs_view(unknown@) == unknown_keys(a@.subrange(0, i as int), rc),
                    forall|j: int| 0 <= j < unknown@.len() ==> #[trigger] strs_view(unknown@)[j] == unknown@[j]@,
                decreases a@.len() - i,
            {
                let ghost sub = a@.subrange(0, i + 1);
                assert(sub.drop_last() == a@.subrange(0, i as int));
                assert(sub.last() == a@[i as int]);
                if !is_known_key(rc, a[i].key.as_str()) {
                    let ghost before = unknown@;
                    let d = debug_str(a[i].key.as_str());
                    unknown.push(lit(a[i].key.as_str()));
                    assert(strs_view(unknown@) =~= strs_view(before).push(a@[i as int].key@));
                }
                i += 1;
            }
            assert(a@.subrange(0, a@.len() as int) == a@);
            if unknown.len() == 0 {
                pass(c)
            } else {
                let mut dbg: Vec<String> = Vec::new();
                let mut k: usize = 0;
                while k < unknown.len()
                    invariant
                        k <= unknown@.len(),
                        strs_view(dbg@) == strs_view(unknown@).subrange(0, k as int).map_values(
                            |t: Seq<char>| debug_quoted(t),
                        ),
                        strs_view(unknown@) == unknown_keys(a@, rc),
                    decreases unknown@.len() - k,
                {
                    let ghost before = dbg@;
                    let item = debug_str(unknown[k].as_str());
                    let ghost iv = item;
                    dbg.push(item);
                    proof {
                        lemma_strs_view_push(before, iv);
                        let src = strs_view(unknown@);
                        assert(src.subrange(0, k + 1) == src.subrange(0, k as int).push(src[k as int]));
                        assert(src[k as int] == unknown@[k as int]@);
                    }
                    assert(strs_view(dbg@) =~= strs_view(unknown@).subrange(0, k + 1).map_values(
                        |t: Seq<char>| debug_quoted(t),
                    ));
                    k += 1;
                }
                assert(strs_view(unknown@).subrange(0, unknown@.len() as int) == strs_view(unknown@));
                let mut d = lit("unknown attributes: ");
                let l = bracket_join(&dbg);
                append_str(&mut d, l.as_str());
                fail(c, d)
            }
        },
    }
}

fn eval_spz_present(doc: &GltfDocument) -> (r: ClauseResult)
    ensures
        reports(r, Clause::SpzExtPresent, o_spz_present(*doc)),
{
    let c = Clause::SpzExtPresent;
    let in_use = spz_used_exec(doc) || doc.spz_ext.is_some();
    if !in_use {
        skip(c, lit("SPZ extension not declared"))
    } else if doc.spz_ext.is_none() {
        fail(c, lit("extensionsUsed contains SPZ but no primitive declares it"))
    } else {
        pass(c)
    }
}

fn spz_field_exec(doc: &GltfDocument, which: u8) -> (r: Option<u64>)
    ensures
        r == spz_field(*doc, which as int),
{
    match &doc.spz_ext {
        Some(e) => if which == 0 {
            e.version
        } else if which == 1 {
            e.buffer_view
        } else {
            e.splat_count
        },
        None => None,
    }
}

fn eval_spz_version(doc: &GltfDocument) -> (r: ClauseResult)
    ensures
        reports(r, Clause::SpzVersion, o_spz_version(*doc)),
{
    let c = Clause::SpzVersion;
    let in_use = spz_used_exec(doc) || doc.spz_ext.is_some();
    if !in_use {
        skip(c, lit("SPZ extension not declared"))
    } else {
        match spz_field_exec(doc, 0) {
            None => fail(c, lit("SPZ extension missing version field")),
            Some(v) => if v == 2 {
                pass(c)
            } else {
                let mut d = lit("SPZ version=");
                push_decimal(&mut d, v);
                append_str(&mut d, ", want 2 (current SPZ wire format)");
                fail(c, d)
            },
        }
    }
}

fn spz_view_exec(doc: &GltfDocument) -> (r: Option<(u64, u64, u64)>)
    ensures
        r == spz_view(*doc),
{
    match spz_field_exec(doc, 1) {
        Some(idx) => if idx < doc.buffer_views.len() as u64 {
            let bv = &doc.buffer_views[idx as usize];
            Some((opt_or0(bv.buffer), opt_or0(bv.byte_offset), opt_or0(bv.byte_length)))
        } else {
            None
        },
        None => None,
    }
}

fn eval_spz_bufferview(doc: &GltfDocument) -> (r: ClauseResult)
    requires
        (spz_in_use(*doc) && spz_view(*doc) is Some) ==> spz_view_end_fits(*doc),
    ensures
        reports(r, Clause::SpzBufferView, o_spz_bufferview(*doc)),
{
    let c = Clause::SpzBufferView;
    let in_use = spz_used_exec(doc) || doc.spz_ext.is_some();
    if !in_use {
        return skip(c, lit("SPZ extension not declared"));
    }
    match spz_field_exec(doc, 1) {
        None => fail(c, lit("SPZ extension missing bufferView")),
        Some(idx) => if idx >= doc.buffer_views.len() as u64 {
            let mut d = lit("SPZ bufferView ");
            push_decimal(&mut d, idx);
            append_str(&mut d, " out of range");
            fail(c, d)
        } else {
            let bv = &doc.buffer_views[idx as usize];
            let off = opt_or0(bv.byte_offset);
            let len = opt_or0(bv.byte_length);
            let buf_idx = opt_or0(bv.buffer);
            let buf_len = if buf_idx < doc.buffers.len() as u64 {
                opt_or0(doc.buffers[buf_idx as usize].byte_length)
            } else {
                0
            };
            if off + len > buf_len {
                let mut d = lit("SPZ bufferView (off=");
                push_decimal(&mut d, off);
                append_str(&mut d, ", len=");
                push_decimal(&mut d, len);
                append_str(&mut d, ") overflows buffer ");
                push_decimal(&mut d, buf_idx);
                append_str(&mut d, " (len=");
                push_decimal(&mut d, buf_len);
                append_str(&mut d, ")");
                fail(c, d)
            } else if len < 16 {
                let mut d = lit("SPZ bufferView byteLength=");
                push_decimal(&mut d, len);
                append_str(&mut d, " < 16 (SPZ header size)");
                fail(c, d)
            } else {
                pass(c)
            }
        },
    }
}

fn hex_bracket(b: &[u8]) -> (r: String)
    ensures
        r@ == hex_list(b@),
{
    let mut pieces: Vec<String> = Vec::new();
    let mut i: usize = 0;
    while i < b.len()
        invariant
            i <= b@.len(),
            strs_view(pieces@) == b@.subrange(0, i as int).map_values(|x: u8| hex2(x)),
        decreases b@.len() - i,
    {
        let ghost before = pieces@;
        let item = hex2_string(b[i]);
        let ghost iv = item;
        pieces.push(item);
        proof {
            lemma_strs_view_push(before, iv);
            assert(b@.subrange(0, i + 1) == b@.subrange(0, i as int).push(b@[i as int]));
        }
        assert(strs_view(pieces@) =~= b@.subrange(0, i + 1).map_values(|x: u8| hex2(x)));
        i += 1;
    }
    assert(b@.subrange(0, b@.len() as int) == b@);
    bracket_join(&pieces)
}

fn eval_spz_magic(doc: &GltfDocument, bin: Option<&[u8]>) -> (r: ClauseResult)
    requires
        (spz_in_use(*doc) && spz_view(*doc) is Some) ==> spz_view_end_fits(*doc),
    ensures
        reports(r, Clause::SpzBlobMagic, o_spz_magic(*doc, opt_bytes(bin))),
{
    let c = Clause::SpzBlobMagic;
    let in_use = spz_used_exec(doc) || doc.spz_ext.is_some();
    if !in_use {
        return skip(c, lit("SPZ extension not declared"));
    }
    match spz_view_exec(doc) {
        None => skip(c, lit("SPZ bufferView did not resolve to a buffer range")),
        Some((buf, off, len)) => match bin {
            None => skip(c, lit("SPZ blob magic not checkable on .gltf (no BIN chunk)")),
            Some(b) => if buf != 0 {
                let mut d = lit("SPZ bufferView refers to buffer ");
                push_decimal(&mut d, buf);
                append_str(&mut d, ", not the GLB BIN buffer");
                skip(c, d)
            } else if off + len > b.len() as u64 || len < 4 {
                let mut d = lit("SPZ bufferView (off=");
                push_decimal(&mut d, off);
                append_str(&mut d, ", len=");
                push_decimal(&mut d, len);
                append_str(&mut d, ") does not fit in BIN chunk");
                fail(c, d)
            } else {
                let o = off as usize;
                let m = crate::bytes::copy_range(b, o, o + 4);
                let want: Vec<u8> = vec![0x47u8, 0x4eu8, 0x53u8, 0x50u8];
                assert(want@ =~= spz_magic_bytes());
                if m[0] == 0x47 && m[1] == 0x4e && m[2] == 0x53 && m[3] == 0x50 {
                    assert(m@ =~= spz_magic_bytes());
                    pass(c)
                } else {
                    assert(m@ != spz_magic_bytes()) by {
                        if m@ == spz_magic_bytes() {
                            assert(m@[0] == 0x47u8 && m@[1] == 0x4eu8 && m@[2] == 0x53u8 && m@[3] == 0x50u8);
                        }
                    }
                    let mut d = lit("SPZ blob magic=");
                    let hm = hex_bracket(m.as_slice());
                    append_str(&mut d, hm.as_str());
                    append_str(&mut d, ", want ");
                    let hw = hex_bracket(want.as_slice());
                    append_str(&mut d, hw.as_str());
                    append_str(&mut d, " (0x5053_4e47 LE)");
                    fail(c, d)
                }
            },
        },
    }
}

pub open spec fn opt_bytes(bin: Option<&[u8]>) -> Option<Seq<u8>> {
    match bin {
        Some(b) => Some(b@),
        None => None,
    }
}

fn declared_splats_exec(doc: &GltfDocument) -> (r: Option<u64>)
    ensures
        r == declared_splats(*doc),
{
    match spz_field_exec(doc, 2) {
        Some(n) => Some(n),
        None => match lookup_index(doc, "_OPACITY") {
            Some(i) => match accessor_ref(doc, i) {
                Some(a) => match a.count {
                    Some(c) => if c > 0 {
                        Some(c)
                    } else {
                        None
                    },
                    None => None,
                },
                None => None,
            },
            None => None,
        },
    }
}

fn eval_spz_count(doc: &GltfDocument, bin: Option<&[u8]>) -> (r: ClauseResult)
    requires
        (spz_in_use(*doc) && bin is Some && declared_splats(*doc) is Some) ==> spz_header_end_fits(
            *doc,
        ),
    ensures
        reports(r, Clause::SpzDecodedCount, o_spz_count(*doc, opt_bytes(bin))),
{
    let c = Clause::SpzDecodedCount;
    let in_use = spz_used_exec(doc) || doc.spz_ext.is_some();
    if !in_use {
        return skip(c, lit("SPZ extension not declared"));
    }
    let view = spz_view_exec(doc);
    let declared = declared_splats_exec(doc);
    match (view, bin, declared) {
        (Some((buf, off, len)), Some(b), Some(want)) => {
            if buf == 0 && off + 12 <= b.len() as u64 && len >= 12 {
                let count = crate::bytes::read_u32_le(b, (off + 8) as usize);
                if count as u64 == want {
                    return pass(c);
                } else {
                    let mut d = lit("SPZ header splat_count=");
                    push_decimal(&mut d, count as u64);
                    append_str(&mut d, " but primitive declares ");
                    push_decimal(&mut d, want);
                    return fail(c, d);
                }
            }
        },
        _ => {},
    }
    if declared.is_none() {
        skip(c, lit("no primitive splatCount available to compare against"))
    } else if view.is_some() && bin.is_none() {
        skip(c, lit("SPZ blob splat_count not checkable on .gltf (no BIN chunk)"))
    } else if view.is_none() {
        skip(c, lit("SPZ bufferView did not resolve"))
    } else {
        skip(c, lit("SPZ blob too small for header"))
    }
}

/// Number of results with status `st`.
pub open spec fn count_status(cs: Seq<ClauseResult>, st: Status) -> nat
    decreases cs.len(),
{
    if cs.len() == 0 {
        0
    } else {
        count_status(cs.drop_last(), st) + if cs.last().status == st {
            1nat
        } else {
            0nat
        }
    }
}

/// `cs` is the full report, in spec order, for `doc` with `bin`.
/// The positions in `all_clauses()` that a report on `doc` covers, in order:
/// every clause when the asset uses SPZ; otherwise all but the seven SPZ
/// clauses (positions 22, 23 and 25 to 29).
pub open spec fn report_indices(doc: GltfDocument) -> Seq<int> {
    if spz_in_use(doc) {
        Seq::new(30, |i: int| i)
    } else {
        Seq::new(22, |i: int| i).push(24)
    }
}

/// `cs` is the full report, in spec order, for `doc` with `bin`.
pub open spec fn reports_all(cs: Seq<ClauseResult>, doc: GltfDocument, bin: Option<Seq<u8>>) -> bool {
    &&& cs.len() == report_indices(doc).len()
    &&& forall|i: int|
        0 <= i < cs.len() ==> reports(
            #[trigger] cs[i],
            all_clauses()[report_indices(doc)[i]],
            expected_outcomes(doc, bin)[report_indices(doc)[i]],
        )
}

fn run_clauses(doc: &GltfDocument, bin: Option<&[u8]>) -> (out: Vec<ClauseResult>)
    requires
        clause_arith_fits(*doc, opt_bytes(bin)),
    ensures
        reports_all(out@, *doc, opt_bytes(bin)),
{
    let ghost b = opt_bytes(bin);
    let ghost ex = expected_outcomes(*doc, b);
    let ghost all = all_clauses();
    let rc = rc_layout_exec(doc);
    let spz = spz_used_exec(doc) || doc.spz_ext.is_some();
    let mut out: Vec<ClauseResult> = Vec::new();
    out.push(eval_ext_used(doc));
    out.push(eval_ext_required(doc));
    out.push(eval_asset_version(doc));
    out.push(eval_prim_ext(doc));
    out.push(eval_ext_projection(doc));
    out.push(eval_ext_sorting(doc));
    out.push(eval_attrs_object(doc));
    out.push(eval_present(doc, Clause::PositionPresent, "POSITION"));
    out.push(eval_present(doc, Clause::RotationPresent, "_ROTATION"));
    out.push(eval_present(doc, Clause::ScalePresent, "_SCALE"));
    out.push(eval_present(doc, Clause::OpacityPresent, "_OPACITY"));
    out.push(eval_present(doc, Clause::ColorDcPresent, "_COLOR_DC"));
    out.push(eval_accessor_shape(doc, Clause::PositionAccessor, "POSITION", "VEC3", 1));
    let rot_kind: u8 = if rc { 2 } else { 0 };
    assert(rotation_cts(*doc) == cts_of(rot_kind));
    out.push(eval_accessor_shape(doc, Clause::RotationAccessor, "_ROTATION", "VEC4", rot_kind));
    out.push(eval_accessor_shape(doc, Clause::ScaleAccessor, "_SCALE", "VEC3", 1));
    out.push(eval_accessor_shape(doc, Clause::OpacityAccessor, "_OPACITY", "SCALAR", 1));
    out.push(eval_accessor_shape(doc, Clause::ColorDcAccessor, "_COLOR_DC", "VEC3", 1));
    out.push(eval_color_sh(doc));
    out.push(eval_position_minmax(doc));
    out.push(eval_sh_degree(doc));
    out.push(eval_counts_agree(doc));
    out.push(eval_bufferview_bounds(doc, Ghost(b)));
    let ghost core = out@;
    assert(core.len() == 22);
    if spz {
        out.push(eval_spz_declared(doc));
        out.push(eval_spz_consistent(doc));
    }
    out.push(eval_known_only(doc));
    if spz {
        out.push(eval_spz_present(doc));
        out.push(eval_spz_version(doc));
        out.push(eval_spz_bufferview(doc));
        out.push(eval_spz_magic(doc, bin));
        out.push(eval_spz_count(doc, bin));
    }
    proof {
        let ix = report_indices(*doc);
        assert(spz == spz_in_use(*doc));
        assert(out@.len() == ix.len());
        assert forall|i: int| 0 <= i < out@.len() implies reports(#[trigger] out@[i], all[ix[i]], ex[ix[i]]) by {
            if i < 22 {
                assert(out@[i] == core[i]);
                assert(ix[i] == i);
            }
        }
    }
    out
}

proof fn lemma_counts_sum(cs: Seq<ClauseResult>)
    ensures
        count_status(cs, Status::Pass) + count_status(cs, Status::Fail) + count_status(cs, Status::Skip)
            == cs.len(),
        count_status(cs, Status::Fail) <= cs.len(),
    decreases cs.len(),
{
    if cs.len() > 0 {
        lemma_counts_sum(cs.drop_last());
    }
}

/// Counts the results of each status.
fn tally(cs: &Vec<ClauseResult>) -> (r: (usize, usize, usize))
    ensures
        r.0 == count_status(cs@, Status::Pass),
        r.1 == count_status(cs@, Status::Fail),
        r.2 == count_status(cs@, Status::Skip),
{
    let mut pass: usize = 0;
    let mut fail: usize = 0;
    let mut skip: usize = 0;
    let mut i: usize = 0;
    while i < cs.len()
        invariant
            i <= cs@.len(),
            pass == count_status(cs@.subrange(0, i as int), Status::Pass),
            fail == count_status(cs@.subrange(0, i as int), Status::Fail),
            skip == count_status(cs@.subrange(0, i as int), Status::Skip),
        decreases cs@.len() - i,
    {
        let ghost sub = cs@.subrange(0, i + 1);
        assert(sub.drop_last() == cs@.subrange(0, i as int));
        proof {
            lemma_counts_sum(cs@.subrange(0, i as int));
        }
        match cs[i].status {
            Status::Pass => pass += 1,
            Status::Fail => fail += 1,
            Status::Skip => skip += 1,
        }
        i += 1;
    }
    assert(cs@.subrange(0, cs@.len() as int) == cs@);
    (pass, fail, skip)
}

/// Runs every clause against `doc` (with the GLB `BIN` chunk, when there is
/// one) and returns the report.
pub fn validate_document(doc: &GltfDocument, bin: Option<&[u8]>, source: &str, container: &str) -> (r: Report)
    requires
        clause_arith_fits(*doc, opt_bytes(bin)),
    ensures
        r.source@ == source@,
        r.container@ == container@,
        reports_all(r.clauses@, *doc, opt_bytes(bin)),
        r.pass == count_status(r.clauses@, Status::Pass),
        r.fail == count_status(r.clauses@, Status::Fail),
        r.skip == count_status(r.clauses@, Status::Skip),
{
    let clauses = run_clauses(doc, bin);
    let (pass, fail, skip) = tally(&clauses);
    Report { source: lit(source), container: lit(container), pass, fail, skip, clauses }
}

/// Validates a glTF JSON document (no GLB `BIN` chunk available).
pub fn validate_json(doc: &GltfDocument, source: &str) -> (r: Report)
    requires
        clause_arith_fits(*doc, None),
    ensures
        r.source@ == source@,
        r.container@ == "gltf"@,
        reports_all(r.clauses@, *doc, None),
        r.pass == count_status(r.clauses@, Status::Pass),
        r.fail == count_status(r.clauses@, Status::Fail),
        r.skip == count_status(r.clauses@, Status::Skip),
{
    validate_document(doc, None, source, "gltf")
}

/// Every clause of a report is counted under exactly one status, and a
/// report passes exactly when none of its clauses failed.
pub proof fn lemma_report_pass_iff_no_failure(r: Report)
    requires
        r.pass == count_status(r.clauses@, Status::Pass),
        r.fail == count_status(r.clauses@, Status::Fail),
        r.skip == count_status(r.clauses@, Status::Skip),
    ensures
        r.pass + r.fail + r.skip == r.clauses@.len(),
        (r.fail == 0) <==> (forall|i: int| 0 <= i < r.clauses@.len() ==> #[trigger] r.clauses@[i].status != Status::Fail),
{
    lemma_counts_sum(r.clauses@);
    lemma_fail_count_zero(r.clauses@);
}

proof fn lemma_fail_count_zero(cs: Seq<ClauseResult>)
    ensures
        (count_status(cs, Status::Fail) == 0) <==> (forall|i: int| 0 <= i < cs.len() ==> #[trigger] cs[i].status != Status::Fail),
    decreases cs.len(),
{
    if cs.len() > 0 {
        lemma_fail_count_zero(cs.drop_last());
        let d = cs.drop_last();
        assert forall|i: int| 0 <= i < d.len() implies d[i] == cs[i] by {}
        if count_status(cs, Status::Fail) == 0 {
            assert forall|i: int| 0 <= i < cs.len() implies #[trigger] cs[i].status != Status::Fail by {
                if i < d.len() {
                    assert(d[i] == cs[i]);
                }
            }
        }
        if forall|i: int| 0 <= i < cs.len() ==> #[trigger] cs[i].status != Status::Fail {
            assert(cs[cs.len() - 1].status != Status::Fail);
            assert forall|i: int| 0 <= i < d.len() implies #[trigger] d[i].status != Status::Fail by {
                assert(d[i] == cs[i]);
            }
        }
    }
}


/// The four bytes `glTF` that open every GLB file.
pub open spec fn glb_magic() -> Seq<u8> {
    seq![0x67u8, 0x6Cu8, 0x54u8, 0x46u8]
}

/// End of `b[start..end]` once trailing spaces and NUL bytes are dropped.
pub open spec fn trim_pad_end(b: Seq<u8>, start: int, end: int) -> int
    decreases end - start,
{
    if end > start && (b[end - 1] == 32u8 || b[end - 1] == 0u8) {
        trim_pad_end(b, start, end - 1)
    } else {
        end
    }
}

/// Walks the GLB chunks of `b[..total]` from byte `off`, carrying the last
/// JSON chunk seen (without its trailing padding) and the last `BIN` chunk
/// seen. Fails when a chunk runs past `total` or a JSON chunk is not UTF-8.
pub open spec fn glb_chunks(
    b: Seq<u8>,
    total: int,
    off: int,
    json: Option<Seq<u8>>,
    bin: Option<Seq<u8>>,
) -> Result<(Option<Seq<u8>>, Option<Seq<u8>>), Seq<char>>
    decreases total - off,
{
    if off < 0 || off + 8 > total {
        Ok((json, bin))
    } else {
        let start = off + 8;
        let end = start + le_u32(b, off);
        let ty = le_u32(b, off + 4);
        if end > total {
            Err("chunk exceeds total"@)
        } else if ty == 0x4E4F534A {
            let j = b.subrange(start, trim_pad_end(b, start, end));
            if valid_utf8(j) {
                glb_chunks(b, total, end, Some(j), bin)
            } else {
                Err("JSON chunk not UTF-8"@)
            }
        } else if ty == 0x004E4942 {
            glb_chunks(b, total, end, json, Some(b.subrange(start, end)))
        } else {
            glb_chunks(b, total, end, json, bin)
        }
    }
}

/// The JSON text and the `BIN` payload of a GLB file, or the reason the
/// file is malformed.
pub open spec fn glb_parts(b: Seq<u8>) -> Result<(Seq<char>, Option<Seq<u8>>), Seq<char>> {
    if b.len() < 12 || b.subrange(0, 4) != glb_magic() {
        Err("bad magic"@)
    } else if b.len() < le_u32(b, 8) {
        Err("truncated"@)
    } else {
        match glb_chunks(b, le_u32(b, 8) as int, 12, None, None) {
            Err(m) => Err(m),
            Ok((None, _)) => Err("missing JSON chunk"@),
            Ok((Some(j), bin)) => Ok((decode_utf8(j), bin)),
        }
    }
}

/// The view of an optional byte vector.
pub open spec fn opt_vec(v: Option<Vec<u8>>) -> Option<Seq<u8>> {
    match v {
        Some(b) => Some(b@),
        None => None,
    }
}

/// Splits a GLB file into its JSON text and its `BIN` chunk (when present).
#[verifier::rlimit(50)]
#[verifier::spinoff_prover]
pub fn extract_glb_parts(bytes: &[u8]) -> (r: Result<(String, Option<Vec<u8>>), ValidateError>)
    ensures
        match r {
            Ok((j, bin)) => glb_parts(bytes@) == Ok::<(Seq<char>, Option<Seq<u8>>), Seq<char>>(
                (j@, opt_vec(bin)),
            ),
            Err(e) => e matches ValidateError::Glb(m) && glb_parts(bytes@) == Err::<
                (Seq<char>, Option<Seq<u8>>),
                Seq<char>,
            >(m@),
        },
{
    if bytes.len() < 12 || bytes[0] != 0x67u8 || bytes[1] != 0x6Cu8 || bytes[2] != 0x54u8
        || bytes[3] != 0x46u8 {
        proof {
            if bytes@.len() >= 12 {
                assert(bytes@.subrange(0, 4)[0] == bytes@[0]);
                assert(bytes@.subrange(0, 4)[1] == bytes@[1]);
                assert(bytes@.subrange(0, 4)[2] == bytes@[2]);
                assert(bytes@.subrange(0, 4)[3] == bytes@[3]);
                assert(bytes@.subrange(0, 4) != glb_magic());
            }
            reveal_strlit("bad magic");
        }
        return Err(ValidateError::Glb(lit("bad magic")));
    }
    proof {
        assert(bytes@.subrange(0, 4) =~= glb_magic());
    }
    let total32 = read_u32_le(bytes, 8);
    if (bytes.len() as u64) < (total32 as u64) {
        return Err(ValidateError::Glb(lit("truncated")));
    }
    let total = total32 as usize;
    let ghost b = bytes@;
    let mut offset: usize = 12;
    let mut json: Option<String> = None;
    let mut bin: Option<Vec<u8>> = None;
    let ghost mut jv: Option<Seq<u8>> = None;
    while offset <= total && total - offset >= 8
        invariant
            b == bytes@,
            b.len() >= 12,
            b.subrange(0, 4) == glb_magic(),
            total <= b.len(),
            total == le_u32(b, 8),
            12 <= offset,
            offset <= total || offset == 12,
            json is Some <==> jv is Some,
            jv matches Some(j) ==> (json matches Some(s) && s@ == decode_utf8(j)),
            glb_chunks(b, total as int, 12, None, None) == glb_chunks(
                b,
                total as int,
                offset as int,
                jv,
                opt_vec(bin),
            ),
        decreases total - offset,
    {
        let chunk_len = read_u32_le(bytes, offset);
        let chunk_ty = read_u32_le(bytes, offset + 4);
        let data_start = offset + 8;
        if (chunk_len as u64) > ((total - data_start) as u64) {
            proof {
                assert(glb_chunks(b, total as int, offset as int, jv, opt_vec(bin)) == Err::<
                    (Option<Seq<u8>>, Option<Seq<u8>>),
                    Seq<char>,
                >("chunk exceeds total"@));
            }
            return Err(ValidateError::Glb(lit("chunk exceeds total")));
        }
        let data_end = data_start + chunk_len as usize;
        if chunk_ty == 0x4E4F534Au32 {
            let mut end = data_end;
            while end > data_start && (bytes[end - 1] == 32u8 || bytes[end - 1] == 0u8)
                invariant
                    b == bytes@,
                    data_start <= end <= data_end <= total <= b.len(),
                    trim_pad_end(b, data_start as int, end as int) == trim_pad_end(
                        b,
                        data_start as int,
                        data_end as int,
                    ),
                decreases end,
            {
                end -= 1;
            }
            let piece = &bytes[data_start..end];
            match utf8_str(piece) {
                None => {
                    return Err(ValidateError::Glb(lit("JSON chunk not UTF-8")));
                },
                Some(s) => {
                    proof {
                        vstd::utf8::encode_utf8_decode_utf8(s@);
                        jv = Some(b.subrange(data_start as int, end as int));
                    }
                    json = Some(lit(s));
                },
            }
        } else if chunk_ty == 0x004E4942u32 {
            let data = copy_range(bytes, data_start, data_end);
            bin = Some(data);
        }
        offset = data_end;
    }
    match json {
        None => Err(ValidateError::Glb(lit("missing JSON chunk"))),
        Some(j) => Ok((j, bin)),
    }
}

/// Whether every size product and offset sum the clauses compute fits in
/// 64 bits: the condition under which the clauses can be evaluated.
pub fn clause_arith_ok(doc: &GltfDocument, bin: Option<&[u8]>) -> (r: bool)
    ensures
        r == clause_arith_fits(*doc, opt_bytes(bin)),
{
    let mut i: usize = 0;
    while i < doc.accessors.len()
        invariant
            i <= doc.accessors@.len(),
            forall|j: int|
                0 <= j < i ==> {
                    let acc = #[trigger] doc.accessors@[j];
                    let comps = type_components(acc_type(acc));
                    let bpc = component_bytes(acc_ct(acc));
                    (comps != 0 && bpc != 0 && acc.buffer_view is Some) ==> {
                        &&& or0(acc.count) * comps * bpc <= u64::MAX
                        &&& (acc.buffer_view->0 < doc.buffer_views@.len() && or0(
                            doc.buffer_views@[acc.buffer_view->0 as int].buffer,
                        ) < doc.buffers@.len()) ==> or0(
                            doc.buffer_views@[acc.buffer_view->0 as int].byte_offset,
                        ) + or0(doc.buffer_views@[acc.buffer_view->0 as int].byte_length) <= u64::MAX
                    }
                },
        decreases doc.accessors@.len() - i,
    {
        let acc = &doc.accessors[i];
        let comps = components_of(type_of(acc));
        let bpc = bytes_per_component(ct_of(acc));
        if comps != 0 && bpc != 0 {
            match acc.buffer_view {
                Some(v) => {
                    let c = count_of(acc) as u128;
                    assert(comps <= 4 && bpc <= 4);
                    assert(c * (comps as u128) <= 4 * 18446744073709551615u128) by (nonlinear_arith)
                        requires
                            c <= 18446744073709551615u128,
                            comps <= 4,
                    ;
                    let cc = c * (comps as u128);
                    assert(cc * (bpc as u128) <= 16 * 18446744073709551615u128) by (nonlinear_arith)
                        requires
                            cc <= 4 * 18446744073709551615u128,
                            bpc <= 4,
                    ;
                    let size = cc * (bpc as u128);
                    if size > 18446744073709551615u128 {
                        return false;
                    }
                    if v < doc.buffer_views.len() as u64 {
                        let bv = &doc.buffer_views[v as usize];
                        if opt_or0(bv.buffer) < doc.buffers.len() as u64 {
                            let end = (opt_or0(bv.byte_offset) as u128) + (opt_or0(bv.byte_length) as u128);
                            if end > 18446744073709551615u128 {
                                return false;
                            }
                        }
                    }
                },
                None => {},
            }
        }
        i += 1;
    }
    proof {
        reveal_strlit("_COLOR_SH");
        reveal_strlit("SCALAR");
        reveal_strlit("POSITION");
    }
    let sh_checked = !rc_layout_exec(doc) && match lookup_index(doc, "_COLOR_SH") {
        Some(idx) => match accessor_ref(doc, idx) {
            Some(acc) => str_eq(type_of(acc), "SCALAR") && ct_of(acc) == 5126 && position_count(doc) > 0,
            None => false,
        },
        None => false,
    };
    if sh_checked && (position_count(doc) as u128) * 45 > 18446744073709551615u128 {
        return false;
    }
    let in_use = spz_used_exec(doc) || doc.spz_ext.is_some();
    if in_use {
        match spz_view_exec(doc) {
            Some((buf, off, len)) => {
                if (off as u128) + (len as u128) > 18446744073709551615u128 {
                    return false;
                }
                if bin.is_some() && declared_splats_exec(doc).is_some() && buf == 0 && (off as u128) + 12
                    > 18446744073709551615u128 {
                    return false;
                }
            },
            None => {},
        }
    }
    true
}

fn position_count(doc: &GltfDocument) -> (r: u64)
    ensures
        r == acc_count_at(*doc, "POSITION"@),
{
    proof {
        reveal_strlit("POSITION");
    }
    match lookup_index(doc, "POSITION") {
        Some(i) => match accessor_ref(doc, i) {
            Some(a) => count_of(a),
            None => 0,
        },
        None => 0,
    }
}

// ---------- baseline fixture buffer ----------

/// Rotation words of the baseline: identity quaternions `(0, 0, 0, 1)`.
pub open spec fn baseline_rot(i: int) -> u32 {
    if i % 4 == 3 {
        0x3F80_0000
    } else {
        0
    }
}

/// Color words of the baseline: DC `(0.1, 0.2, 0.3)` per splat.
pub open spec fn baseline_dc(i: int) -> u32 {
    if i % 3 == 0 {
        0x3DCC_CCCD
    } else if i % 3 == 1 {
        0x3E4C_CCCD
    } else {
        0x3E99_999A
    }
}

/// The FLOAT values of the four-splat baseline fixture, as `f32` bit
/// patterns, section by section: positions `(i, i/2, -i)`, identity
/// rotations, unit scales, opacity 0.5, and DC color (0.1, 0.2, 0.3).
pub open spec fn baseline_words() -> Seq<u32> {
    seq![
        0x0000_0000u32, 0x0000_0000, 0x8000_0000,
        0x3F80_0000, 0x3F00_0000, 0xBF80_0000,
        0x4000_0000, 0x3F80_0000, 0xC000_0000,
        0x4040_0000, 0x3FC0_0000, 0xC040_0000,
    ] + Seq::new(16, |i: int| baseline_rot(i)) + Seq::new(12, |i: int| 0x3F80_0000u32) + Seq::new(
        4,
        |i: int| 0x3F00_0000u32,
    ) + Seq::new(12, |i: int| baseline_dc(i))
}

/// The baseline fixture's binary buffer: 224 bytes of little-endian `f32`.
pub fn baseline_bin() -> (r: Vec<u8>)
    ensures
        r@ == crate::bytes::words_le(baseline_words()),
        r@.len() == 224,
{
    let pos: [u32; 12] = [
        0x0000_0000, 0x0000_0000, 0x8000_0000,
        0x3F80_0000, 0x3F00_0000, 0xBF80_0000,
        0x4000_0000, 0x3F80_0000, 0xC000_0000,
        0x4040_0000, 0x3FC0_0000, 0xC040_0000,
    ];
    let mut w: Vec<u32> = Vec::new();
    let mut i: usize = 0;
    while i < 12
        invariant
            i <= 12,
            w@ == pos@.take(i as int),
        decreases 12 - i,
    {
        w.push(pos[i]);
        i += 1;
        assert(w@ =~= pos@.take(i as int));
    }
    let ghost h1 = w@;
    let mut k: usize = 0;
    while k < 16
        invariant
            k <= 16,
            w@ == h1 + Seq::new(k as nat, |i: int| baseline_rot(i)),
        decreases 16 - k,
    {
        let v: u32 = if k % 4 == 3 { 0x3F80_0000 } else { 0 };
        w.push(v);
        k += 1;
        assert(w@ =~= h1 + Seq::new(k as nat, |i: int| baseline_rot(i)));
    }
    let ghost h2 = w@;
    let mut k: usize = 0;
    while k < 12
        invariant
            k <= 12,
            w@ == h2 + Seq::new(k as nat, |i: int| 0x3F80_0000u32),
        decreases 12 - k,
    {
        w.push(0x3F80_0000);
        k += 1;
        assert(w@ =~= h2 + Seq::new(k as nat, |i: int| 0x3F80_0000u32));
    }
    let ghost h3 = w@;
    let mut k: usize = 0;
    while k < 4
        invariant
            k <= 4,
            w@ == h3 + Seq::new(k as nat, |i: int| 0x3F00_0000u32),
        decreases 4 - k,
    {
        w.push(0x3F00_0000);
        k += 1;
        assert(w@ =~= h3 + Seq::new(k as nat, |i: int| 0x3F00_0000u32));
    }
    let ghost h4 = w@;
    let mut k: usize = 0;
    while k < 12
        invariant
            k <= 12,
            w@ == h4 + Seq::new(k as nat, |i: int| baseline_dc(i)),
        decreases 12 - k,
    {
        let v: u32 = if k % 3 == 0 {
            0x3DCC_CCCD
        } else if k % 3 == 1 {
            0x3E4C_CCCD
        } else {
            0x3E99_999A
        };
        w.push(v);
        k += 1;
        assert(w@ =~= h4 + Seq::new(k as nat, |i: int| baseline_dc(i)));
    }
    let mut out: Vec<u8> = Vec::new();
    crate::bytes::push_words(&mut out, w.as_slice());
    proof {
        assert(pos@.take(12) =~= seq![
            0x0000_0000u32, 0x0000_0000, 0x8000_0000,
            0x3F80_0000, 0x3F00_0000, 0xBF80_0000,
            0x4000_0000, 0x3F80_0000, 0xC000_0000,
            0x4040_0000, 0x3FC0_0000, 0xC040_0000,
        ]);
        assert(w@ =~= baseline_words());
        crate::bytes::lemma_words_le_len(w@);
    }
    out
}


/* ---------- reading a parsed document ---------- */

/// The first primitive of the first mesh.
pub open spec fn first_primitive(root: Option<JsonValue>) -> Option<JsonValue> {
    first_of(member(first_of(member(root, "meshes"@)), "primitives"@))
}

/// `a` holds the members of the object `m`: each key, and the value when it
/// is a non-negative integer.
pub open spec fn entries_read(m: Seq<(String, JsonValue)>, a: Seq<AttributeEntry>) -> bool {
    &&& a.len() == m.len()
    &&& forall|i: int|
        0 <= i < a.len() ==> (#[trigger] a[i]).key@ == m[i].0@ && a[i].index == as_u64(Some(m[i].1))
}

/// `a` reads the attributes value `v`: its entries when it is an object.
pub open spec fn attrs_read(v: Option<JsonValue>, a: Option<Vec<AttributeEntry>>) -> bool {
    match (as_object(v), a) {
        (Some(m), Some(x)) => entries_read(m, x@),
        (None, None) => true,
        _ => false,
    }
}

/// `t` reads the optional member `v`: present exactly when `v` is, with its
/// text when it is a string.
pub open spec fn text_member_read(v: Option<JsonValue>, t: Option<Option<String>>) -> bool {
    match (v, t) {
        (None, None) => true,
        (Some(x), Some(s)) => opt_str(s) == opt_str(as_str(Some(x))),
        _ => false,
    }
}

pub open spec fn khr_read(e: Option<JsonValue>, k: Option<KhrPrimitiveExt>) -> bool {
    match (e, k) {
        (None, None) => true,
        (Some(x), Some(k)) => {
            &&& attrs_read(member(Some(x), "attributes"@), k.attributes)
            &&& k.sh_degree == as_u64(member(Some(x), "shDegree"@))
            &&& text_member_read(member(Some(x), "projection"@), k.projection)
            &&& text_member_read(member(Some(x), "sortingMethod"@), k.sorting_method)
        },
        _ => false,
    }
}

pub open spec fn spz_read(e: Option<JsonValue>, k: Option<SpzPrimitiveExt>) -> bool {
    match (e, k) {
        (None, None) => true,
        (Some(x), Some(k)) => {
            &&& k.version == as_u64(member(Some(x), "version"@))
            &&& k.buffer_view == as_u64(member(Some(x), "bufferView"@))
            &&& k.splat_count == as_u64(member(Some(x), "splatCount"@))
        },
        _ => false,
    }
}

/// The length of `v` when it is an array.
pub open spec fn array_len(v: Option<JsonValue>) -> Option<usize> {
    match as_array(v) {
        Some(a) => Some(a.len() as usize),
        None => None,
    }
}

pub open spec fn accessor_read(v: JsonValue, a: JsonAccessor) -> bool {
    let x = Some(v);
    &&& opt_str(a.type_str) == opt_str(as_str(member(x, "type"@)))
    &&& a.component_type == as_u64(member(x, "componentType"@))
    &&& a.count == as_u64(member(x, "count"@))
    &&& a.buffer_view == as_u64(member(x, "bufferView"@))
    &&& a.min_len == array_len(member(x, "min"@))
    &&& a.max_len == array_len(member(x, "max"@))
}

pub open spec fn view_read(v: JsonValue, b: JsonBufferView) -> bool {
    &&& b.buffer == as_u64(member(Some(v), "buffer"@))
    &&& b.byte_offset == as_u64(member(Some(v), "byteOffset"@))
    &&& b.byte_length == as_u64(member(Some(v), "byteLength"@))
}

pub open spec fn buffer_read(v: JsonValue, b: JsonBuffer) -> bool {
    b.byte_length == as_u64(member(Some(v), "byteLength"@))
}

/// `doc` holds what the clauses read of the JSON document `root`.
pub open spec fn doc_read(root: JsonValue, doc: GltfDocument) -> bool {
    let r = Some(root);
    let prim = first_primitive(r);
    let exts = member(prim, "extensions"@);
    let accs = array_member(r, "accessors"@);
    let views = array_member(r, "bufferViews"@);
    let bufs = array_member(r, "buffers"@);
    &&& strs_view(doc.extensions_used@) == string_elems(array_member(r, "extensionsUsed"@))
    &&& strs_view(doc.extensions_required@) == string_elems(array_member(r, "extensionsRequired"@))
    &&& opt_str(doc.asset_version) == opt_str(as_str(member(member(r, "asset"@), "version"@)))
    &&& attrs_read(member(prim, "attributes"@), doc.prim_attributes)
    &&& khr_read(member(exts, khr_name()), doc.khr_ext)
    &&& spz_read(member(exts, spz_name()), doc.spz_ext)
    &&& doc.accessors@.len() == accs.len()
    &&& forall|i: int| 0 <= i < accs.len() ==> accessor_read(accs[i], #[trigger] doc.accessors@[i])
    &&& doc.buffer_views@.len() == views.len()
    &&& forall|i: int| 0 <= i < views.len() ==> view_read(views[i], #[trigger] doc.buffer_views@[i])
    &&& doc.buffers@.len() == bufs.len()
    &&& forall|i: int| 0 <= i < bufs.len() ==> buffer_read(bufs[i], #[trigger] doc.buffers@[i])
}

fn read_attrs(v: Option<&JsonValue>) -> (r: Option<Vec<AttributeEntry>>)
    ensures
        attrs_read(opt_ref(v), r),
{
    match get_object(v) {
        None => None,
        Some(m) => {
            let mut out: Vec<AttributeEntry> = Vec::new();
            let mut i: usize = 0;
            while i < m.len()
                invariant
                    i <= m@.len(),
                    out@.len() == i,
                    forall|j: int|
                        0 <= j < i ==> (#[trigger] out@[j]).key@ == m@[j].0@ && out@[j].index == as_u64(
                            Some(m@[j].1),
                        ),
                decreases m@.len() - i,
            {
                out.push(AttributeEntry { key: lit(m[i].0.as_str()), index: get_u64(Some(&m[i].1)) });
                i += 1;
            }
            Some(out)
        },
    }
}

fn read_text_member(v: Option<&JsonValue>) -> (r: Option<Option<String>>)
    ensures
        text_member_read(opt_ref(v), r),
{
    match v {
        None => None,
        Some(_) => {
            let s = get_string(v);
            Some(s)
        },
    }
}

fn read_khr(e: Option<&JsonValue>) -> (r: Option<KhrPrimitiveExt>)
    ensures
        khr_read(opt_ref(e), r),
{
    match e {
        None => None,
        Some(_) => Some(
            KhrPrimitiveExt {
                attributes: read_attrs(get_member(e, "attributes")),
                sh_degree: get_u64(get_member(e, "shDegree")),
                projection: read_text_member(get_member(e, "projection")),
                sorting_method: read_text_member(get_member(e, "sortingMethod")),
            },
        ),
    }
}

fn read_spz(e: Option<&JsonValue>) -> (r: Option<SpzPrimitiveExt>)
    ensures
        spz_read(opt_ref(e), r),
{
    match e {
        None => None,
        Some(_) => Some(
            SpzPrimitiveExt {
                version: get_u64(get_member(e, "version")),
                buffer_view: get_u64(get_member(e, "bufferView")),
                splat_count: get_u64(get_member(e, "splatCount")),
            },
        ),
    }
}

fn read_array_len(v: Option<&JsonValue>) -> (r: Option<usize>)
    ensures
        r == array_len(opt_ref(v)),
{
    match get_array(v) {
        Some(a) => Some(a.len()),
        None => None,
    }
}

fn read_accessor(v: &JsonValue) -> (r: JsonAccessor)
    ensures
        accessor_read(*v, r),
{
    let x = Some(v);
    JsonAccessor {
        type_str: get_string(get_member(x, "type")),
        component_type: get_u64(get_member(x, "componentType")),
        count: get_u64(get_member(x, "count")),
        buffer_view: get_u64(get_member(x, "bufferView")),
        min_len: read_array_len(get_member(x, "min")),
        max_len: read_array_len(get_member(x, "max")),
    }
}

/// The elements of the array member `key` of `v` (empty when absent).
fn array_member_ref<'a>(v: Option<&'a JsonValue>, key: &str, empty: &'a Vec<JsonValue>) -> (r: &'a Vec<JsonValue>)
    requires
        empty@.len() == 0,
    ensures
        r@ == array_member(opt_ref(v), key@),
{
    match get_array(get_member(v, key)) {
        Some(a) => a,
        None => empty,
    }
}

/// Reads what the clauses need of a parsed glTF document.
pub fn read_document(root: &JsonValue) -> (doc: GltfDocument)
    ensures
        doc_read(*root, doc),
{
    let r = Some(root);
    let empty: Vec<JsonValue> = Vec::new();
    let prim = get_first(get_member(get_first(get_member(r, "meshes")), "primitives"));
    let exts = get_member(prim, "extensions");
    let accs = array_member_ref(r, "accessors", &empty);
    let views = array_member_ref(r, "bufferViews", &empty);
    let bufs = array_member_ref(r, "buffers", &empty);
    let mut accessors: Vec<JsonAccessor> = Vec::new();
    let mut i: usize = 0;
    while i < accs.len()
        invariant
            i <= accs@.len(),
            accessors@.len() == i,
            forall|j: int| 0 <= j < i ==> accessor_read(accs@[j], #[trigger] accessors@[j]),
        decreases accs@.len() - i,
    {
        accessors.push(read_accessor(&accs[i]));
        i += 1;
    }
    let mut buffer_views: Vec<JsonBufferView> = Vec::new();
    let mut i: usize = 0;
    while i < views.len()
        invariant
            i <= views@.len(),
            buffer_views@.len() == i,
            forall|j: int| 0 <= j < i ==> view_read(views@[j], #[trigger] buffer_views@[j]),
        decreases views@.len() - i,
    {
        let x = Some(&views[i]);
        buffer_views.push(
            JsonBufferView {
                buffer: get_u64(get_member(x, "buffer")),
                byte_offset: get_u64(get_member(x, "byteOffset")),
                byte_length: get_u64(get_member(x, "byteLength")),
            },
        );
        i += 1;
    }
    let mut buffers: Vec<JsonBuffer> = Vec::new();
    let mut i: usize = 0;
    while i < bufs.len()
        invariant
            i <= bufs@.len(),
            buffers@.len() == i,
            forall|j: int| 0 <= j < i ==> buffer_read(bufs@[j], #[trigger] buffers@[j]),
        decreases bufs@.len() - i,
    {
        buffers.push(JsonBuffer { byte_length: get_u64(get_member(Some(&bufs[i]), "byteLength")) });
        i += 1;
    }
    GltfDocument {
        extensions_used: string_members(r, "extensionsUsed"),
        extensions_required: string_members(r, "extensionsRequired"),
        asset_version: get_string(get_member(get_member(r, "asset"), "version")),
        prim_attributes: read_attrs(get_member(prim, "attributes")),
        khr_ext: read_khr(get_member(exts, "KHR_gaussian_splatting")),
        spz_ext: read_spz(get_member(exts, "KHR_gaussian_splatting_compression_spz")),
        accessors,
        buffer_views,
        buffers,
    }
}

/// ASCII lower-casing of a character.
pub open spec fn ascii_lower(c: char) -> char {
    if 'A' <= c <= 'Z' {
        ((c as u32) + 32) as char
    } else {
        c
    }
}

/// ASCII lower-casing of a string.
pub open spec fn lower_str(s: Seq<char>) -> Seq<char> {
    s.map_values(|c: char| ascii_lower(c))
}

fn lower_ascii(s: &str) -> (r: String)
    ensures
        r@ == lower_str(s@),
{
    let cs = crate::text::str_chars(s);
    proof {
        reveal_strlit("");
    }
    let mut out = lit("");
    assert(lower_str(s@.subrange(0, 0)) =~= out@);
    let mut i: usize = 0;
    while i < cs.len()
        invariant
            i <= cs@.len(),
            cs@ == s@,
            out@ == lower_str(s@.subrange(0, i as int)),
        decreases cs@.len() - i,
    {
        let c = cs[i];
        let l = if 'A' <= c && c <= 'Z' {
            let u = ((c as u32) + 32) as u8;
            u as char
        } else {
            c
        };
        crate::text::push_char(&mut out, l);
        assert(s@.subrange(0, i + 1) == s@.subrange(0, i as int).push(c));
        assert(lower_str(s@.subrange(0, i + 1)) =~= lower_str(s@.subrange(0, i as int)).push(ascii_lower(c)));
        i += 1;
    }
    assert(s@.subrange(0, s@.len() as int) == s@);
    out
}

/// The JSON text of a file with extension `ext`: the lossily decoded bytes
/// for `gltf`, the JSON chunk for `glb`.
pub open spec fn json_text_of(ext: Seq<char>, b: Seq<u8>) -> Result<(Seq<char>, Option<Seq<u8>>), Seq<char>> {
    if ext == "gltf"@ {
        Ok((lossy_utf8(b), None))
    } else {
        glb_parts(b)
    }
}

/// What validating the JSON text of a file with (lower-cased) extension
/// `ext` gives: a `Json` error when serde_json rejects the text; otherwise,
/// for the document the text holds, an `Arithmetic` error when its sizes
/// overflow, else the report of every clause.
pub open spec fn bytes_report(
    ext: Seq<char>,
    b: Seq<u8>,
    source: Seq<char>,
    r: Result<Report, ValidateError>,
) -> bool {
    match json_text_of(ext, b) {
        Err(_) => true,
        Ok((text, bin)) => match json_parse(text) {
            None => r matches Err(ValidateError::Json(_)),
            Some(v) => match r {
                Ok(rep) => exists|doc: GltfDocument|
                    {
                        &&& doc_read(v, doc)
                        &&& clause_arith_fits(doc, bin)
                        &&& rep.source@ == source
                        &&& rep.container@ == ext
                        &&& reports_all(rep.clauses@, doc, bin)
                        &&& rep.pass == count_status(rep.clauses@, Status::Pass)
                        &&& rep.fail == count_status(rep.clauses@, Status::Fail)
                        &&& rep.skip == count_status(rep.clauses@, Status::Skip)
                    },
                Err(e) => e is Arithmetic && exists|doc: GltfDocument|
                    doc_read(v, doc) && !clause_arith_fits(doc, bin),
            },
        },
    }
}

/// Validates the bytes of a `.gltf` or `.glb` file whose extension is
/// `ext`: an extension other than `gltf` or `glb` (ignoring ASCII case) is
/// `UnsupportedExt`; a malformed GLB is a `Glb` error; text that serde_json
/// rejects is a `Json` error; a document whose sizes overflow 64-bit
/// arithmetic is an `Arithmetic` error; otherwise every clause is reported.
pub fn validate_bytes(ext: &str, bytes: &[u8], source: &str) -> (r: Result<Report, ValidateError>)
    ensures
        lower_str(ext@) != "gltf"@ && lower_str(ext@) != "glb"@ ==> (r matches Err(
            ValidateError::UnsupportedExt(e),
        ) && e@ == lower_str(ext@)),
        lower_str(ext@) == "glb"@ && glb_parts(bytes@) is Err ==> (r matches Err(ValidateError::Glb(m))
            && glb_parts(bytes@) == Err::<(Seq<char>, Option<Seq<u8>>), Seq<char>>(m@)),
        lower_str(ext@) == "gltf"@ || lower_str(ext@) == "glb"@ ==> bytes_report(
            lower_str(ext@),
            bytes@,
            source@,
            r,
        ),
{
    let lext = lower_ascii(ext);
    proof {
        reveal_strlit("gltf");
        reveal_strlit("glb");
    }
    let (text, bin, container) = if str_eq(lext.as_str(), "gltf") {
        assert("gltf"@.len() == 4 && "glb"@.len() == 3);
        assert(lower_str(ext@) != "glb"@);
        (crate::text::utf8_lossy(bytes), None, "gltf")
    } else if str_eq(lext.as_str(), "glb") {
        match extract_glb_parts(bytes) {
            Ok((j, b)) => {
                assert(glb_parts(bytes@) is Ok);
                (j, b, "glb")
            },
            Err(e) => {
                return Err(e);
            },
        }
    } else {
        return Err(ValidateError::UnsupportedExt(lext));
    };
    assert(lower_str(ext@) == "glb"@ ==> glb_parts(bytes@) is Ok);
    let value = match parse_json(text.as_str()) {
        Ok(v) => v,
        Err(m) => {
            return Err(ValidateError::Json(m));
        },
    };
    let doc = read_document(&value);
    let bin_ref: Option<&[u8]> = match &bin {
        Some(b) => Some(b.as_slice()),
        None => None,
    };
    assert(opt_bytes(bin_ref) == opt_vec(bin));
    if !clause_arith_ok(&doc, bin_ref) {
        return Err(ValidateError::Arithmetic);
    }
    Ok(validate_document(&doc, bin_ref, source, container))
}


/* ---------- laws of the report ---------- */

/// The seven clauses about `KHR_gaussian_splatting_compression_spz`.
pub open spec fn is_spz_clause(c: Clause) -> bool {
    c == Clause::SpzExtensionDeclared || c == Clause::SpzExtensionConsistent || c == Clause::SpzExtPresent
        || c == Clause::SpzVersion || c == Clause::SpzBufferView || c == Clause::SpzBlobMagic || c
        == Clause::SpzDecodedCount
}

/// A report lists its clauses in spec order without repeats: result `i`
/// reports the clause at position `report_indices(doc)[i]` of
/// `Clause::all()`, and those positions strictly increase. When the asset
/// does not use SPZ, no SPZ clause is reported at all; otherwise every
/// clause is. A failing result always carries a non-empty detail.
pub proof fn lemma_report_in_spec_order(cs: Seq<ClauseResult>, doc: GltfDocument, bin: Option<Seq<u8>>)
    requires
        reports_all(cs, doc, bin),
    ensures
        forall|i: int|
            0 <= i < cs.len() ==> 0 <= #[trigger] report_indices(doc)[i] < all_clauses().len() && cs[i].id@
                == clause_id(all_clauses()[report_indices(doc)[i]]),
        forall|i: int, j: int| 0 <= i < j < cs.len() ==> report_indices(doc)[i] < report_indices(doc)[j],
        !spz_in_use(doc) ==> forall|i: int| 0 <= i < cs.len() ==> !is_spz_clause(#[trigger] all_clauses()[report_indices(doc)[i]]),
        spz_in_use(doc) ==> cs.len() == all_clauses().len(),
        forall|i: int|
            0 <= i < cs.len() ==> (#[trigger] cs[i]).status == Status::Fail ==> (cs[i].detail matches Some(d)
                && d@.len() > 0),
{
    let ix = report_indices(doc);
    assert forall|i: int| 0 <= i < cs.len() implies (#[trigger] cs[i]).status == Status::Fail ==> (
    cs[i].detail matches Some(d) && d@.len() > 0) by {
        assert(reports(cs[i], all_clauses()[ix[i]], expected_outcomes(doc, bin)[ix[i]]));
        lemma_outcome_detail(doc, bin, ix[i]);
    }
    assert forall|i: int| 0 <= i < cs.len() implies 0 <= #[trigger] ix[i] < all_clauses().len() && cs[i].id@
        == clause_id(all_clauses()[ix[i]]) by {
        assert(reports(cs[i], all_clauses()[ix[i]], expected_outcomes(doc, bin)[ix[i]]));
    }
    if !spz_in_use(doc) {
        assert forall|i: int| 0 <= i < cs.len() implies !is_spz_clause(#[trigger] all_clauses()[ix[i]]) by {
            if i < 22 {
                assert(ix[i] == i);
            } else {
                assert(ix[i] == 24);
            }
        }
    }
}

/// Every failing clause outcome carries a non-empty detail; `EXT_USED` passes exactly when `extensionsUsed` lists
/// `KHR_gaussian_splatting`, and `ASSET_VERSION` exactly when
/// `asset.version` is the string `"2.0"`; both fail otherwise.
pub proof fn lemma_core_clause_outcomes(doc: GltfDocument, bin: Option<Seq<u8>>)
    ensures
        forall|k: int|
            0 <= k < all_clauses().len() ==> (#[trigger] expected_outcomes(doc, bin)[k]).0 == Status::Fail
                ==> (expected_outcomes(doc, bin)[k].1 matches Some(d) && d.len() > 0),
        (o_ext_used(doc).0 == Status::Pass) <==> lists(doc.extensions_used@, khr_name()),
        o_ext_used(doc).0 != Status::Skip,
        (o_asset_version(doc).0 == Status::Pass) <==> (doc.asset_version matches Some(v) && v@ == "2.0"@),
        o_asset_version(doc).0 != Status::Skip,
{
    let ex = expected_outcomes(doc, bin);
    assert forall|k: int| 0 <= k < all_clauses().len() implies (#[trigger] ex[k]).0 == Status::Fail ==> (
    ex[k].1 matches Some(d) && d.len() > 0) by {
        lemma_outcome_detail(doc, bin, k);
    }
}

/// Every bounds problem is non-empty text.
proof fn lemma_bounds_problems_nonempty(doc: GltfDocument, k: int)
    ensures
        forall|i: int| 0 <= i < bounds_problems(doc, k).len() ==> (#[trigger] bounds_problems(doc, k)[i]).len() > 0,
    decreases k,
{
    reveal_strlit("accessor ");
    reveal_strlit("bufferView ");
    if k > 0 {
        lemma_bounds_problems_nonempty(doc, k - 1);
        let prev = bounds_problems(doc, k - 1);
        let cur = accessor_problems(doc, k - 1);
        assert forall|i: int| 0 <= i < cur.len() implies (#[trigger] cur[i]).len() > 0 by {}
        assert forall|i: int| 0 <= i < (prev + cur).len() implies (#[trigger] (prev + cur)[i]).len() > 0 by {
            if i < prev.len() {
                assert((prev + cur)[i] == prev[i]);
            } else {
                assert((prev + cur)[i] == cur[i - prev.len()]);
            }
        }
    }
}

/// A problem found among the higher-degree SH coefficients is non-empty text.
proof fn lemma_sh_problem_nonempty(doc: GltfDocument, m: int)
    ensures
        first_sh_problem(doc, m) matches Some(d) ==> d.len() > 0,
    decreases m,
{
    reveal_strlit("accessor ");
    reveal_strlit(".type=");
    reveal_strlit(".componentType=");
    reveal_strlit(".count=");
    if m > 0 {
        lemma_sh_problem_nonempty(doc, m - 1);
    }
}

/// Joining pieces gives text at least as long as the first piece.
proof fn lemma_join_first(pieces: Seq<Seq<char>>, sep: Seq<char>)
    requires
        pieces.len() > 0,
    ensures
        join(pieces, sep).len() >= pieces[0].len(),
    decreases pieces.len(),
{
    if pieces.len() > 1 {
        lemma_join_first(pieces.drop_last(), sep);
    }
}

/// A failing outcome of clause `k` carries a non-empty detail.
proof fn lemma_outcome_detail(doc: GltfDocument, bin: Option<Seq<u8>>, k: int)
    requires
        0 <= k < 30,
    ensures
        expected_outcomes(doc, bin)[k].0 == Status::Fail ==> (expected_outcomes(doc, bin)[k].1 matches Some(d)
            && d.len() > 0),
{
    reveal_strlit(" (0x5053_4e47 LE)");
    reveal_strlit(" (45 * splat_count)");
    reveal_strlit(" (len=");
    reveal_strlit(" (off=");
    reveal_strlit(" (one per splat)");
    reveal_strlit(" < 16 (SPZ header size)");
    reveal_strlit(" accessor absent");
    reveal_strlit(" bufferView ");
    reveal_strlit(" but _COLOR_SH is absent (must be 0)");
    reveal_strlit(" but primitive declares ");
    reveal_strlit(" bytes but bufferView ");
    reveal_strlit(" has ");
    reveal_strlit(" is declared");
    reveal_strlit(" is not a string");
    reveal_strlit(" missing");
    reveal_strlit(" missing but degree ");
    reveal_strlit(" needs ");
    reveal_strlit(" omitted (defaults to ");
    reveal_strlit(" out of range");
    reveal_strlit(" refs missing buffer ");
    reveal_strlit(")");
    reveal_strlit(") does not fit in BIN chunk");
    reveal_strlit(") overflows buffer ");
    reveal_strlit(", len=");
    reveal_strlit(", must be 0..=3");
    reveal_strlit(", not the GLB BIN buffer");
    reveal_strlit(", want ");
    reveal_strlit(", want 2 (current SPZ wire format)");
    reveal_strlit(", want 5126 (FLOAT)");
    reveal_strlit(", want SCALAR");
    reveal_strlit(", want VEC3");
    reveal_strlit(", want \"2.0\"");
    reveal_strlit(", want one of ");
    reveal_strlit(", want one of [5126, 5121, 5123]");
    reveal_strlit(".componentType=");
    reveal_strlit(".count=");
    reveal_strlit(".type=");
    reveal_strlit("2.0");
    reveal_strlit(":OPACITY");
    reveal_strlit(":ROTATION");
    reveal_strlit(":SCALE");
    reveal_strlit("; ");
    reveal_strlit("=");
    reveal_strlit("KHR_gaussian_splatting not in extensionsRequired (optional)");
    reveal_strlit("KHR_gaussian_splatting not in extensionsUsed");
    reveal_strlit("POSITION");
    reveal_strlit("POSITION accessor absent");
    reveal_strlit("POSITION accessor missing min and/or max");
    reveal_strlit("SCALAR");
    reveal_strlit("SH coefficient ");
    reveal_strlit("SPZ blob magic not checkable on .gltf (no BIN chunk)");
    reveal_strlit("SPZ blob magic=");
    reveal_strlit("SPZ blob splat_count not checkable on .gltf (no BIN chunk)");
    reveal_strlit("SPZ blob too small for header");
    reveal_strlit("SPZ bufferView ");
    reveal_strlit("SPZ bufferView (off=");
    reveal_strlit("SPZ bufferView byteLength=");
    reveal_strlit("SPZ bufferView did not resolve");
    reveal_strlit("SPZ bufferView did not resolve to a buffer range");
    reveal_strlit("SPZ bufferView refers to buffer ");
    reveal_strlit("SPZ extension missing bufferView");
    reveal_strlit("SPZ extension missing version field");
    reveal_strlit("SPZ extension not declared");
    reveal_strlit("SPZ header splat_count=");
    reveal_strlit("SPZ not present in asset");
    reveal_strlit("SPZ version=");
    reveal_strlit("VEC2");
    reveal_strlit("VEC3");
    reveal_strlit("VEC4");
    reveal_strlit("_COLOR_DC");
    reveal_strlit("_COLOR_SH");
    reveal_strlit("_COLOR_SH not declared");
    reveal_strlit("_COLOR_SH.componentType=");
    reveal_strlit("_COLOR_SH.count=");
    reveal_strlit("_COLOR_SH.type=");
    reveal_strlit("_OPACITY");
    reveal_strlit("_ROTATION");
    reveal_strlit("_SCALE");
    reveal_strlit("accessor ");
    reveal_strlit("accessor index ");
    reveal_strlit("asset.version is ");
    reveal_strlit("asset.version missing");
    reveal_strlit("attribute ");
    reveal_strlit("bufferView ");
    reveal_strlit("cameraDistance");
    reveal_strlit("counts disagree: ");
    reveal_strlit("extensionsUsed contains SPZ but no primitive declares it");
    reveal_strlit("no KHR_gaussian_splatting block");
    reveal_strlit("no attributes object");
    reveal_strlit("no attributes object on KHR block");
    reveal_strlit("no per-splat accessors found");
    reveal_strlit("no primitive declares KHR_gaussian_splatting");
    reveal_strlit("no primitive splatCount available to compare against");
    reveal_strlit("no spherical-harmonic coefficients beyond degree 0");
    reveal_strlit("perspective");
    reveal_strlit("primitive declares SPZ but extensionsUsed omits it");
    reveal_strlit("primitive declares SPZ but not KHR_gaussian_splatting");
    reveal_strlit("projection");
    reveal_strlit("shDegree missing on primitive KHR block");
    reveal_strlit("shDegree=");
    reveal_strlit("sortingMethod");
    reveal_strlit("unknown attributes: ");
    let problems = bounds_problems(doc, doc.accessors@.len() as int);
    lemma_bounds_problems_nonempty(doc, doc.accessors@.len() as int);
    if problems.len() > 0 {
        lemma_join_first(problems, "; "@);
        assert(problems[0].len() > 0);
    }
    if k == 0 {
        assert(expected_outcomes(doc, bin)[k].0 == Status::Fail ==> (expected_outcomes(doc, bin)[k].1 matches Some(d) && d.len() > 0));
    } else if k == 1 {
        assert(expected_outcomes(doc, bin)[k].0 == Status::Fail ==> (expected_outcomes(doc, bin)[k].1 matches Some(d) && d.len() > 0));
    } else if k == 2 {
        assert(expected_outcomes(doc, bin)[k].0 == Status::Fail ==> (expected_outcomes(doc, bin)[k].1 matches Some(d) && d.len() > 0));
    } else if k == 3 {
        assert(expected_outcomes(doc, bin)[k].0 == Status::Fail ==> (expected_outcomes(doc, bin)[k].1 matches Some(d) && d.len() > 0));
    } else if k == 4 {
        assert(expected_outcomes(doc, bin)[k].0 == Status::Fail ==> (expected_outcomes(doc, bin)[k].1 matches Some(d) && d.len() > 0));
    } else if k == 5 {
        assert(expected_outcomes(doc, bin)[k].0 == Status::Fail ==> (expected_outcomes(doc, bin)[k].1 matches Some(d) && d.len() > 0));
    } else if k == 6 {
        assert(expected_outcomes(doc, bin)[k].0 == Status::Fail ==> (expected_outcomes(doc, bin)[k].1 matches Some(d) && d.len() > 0));
    } else if k == 7 {
        assert(expected_outcomes(doc, bin)[k].0 == Status::Fail ==> (expected_outcomes(doc, bin)[k].1 matches Some(d) && d.len() > 0));
    } else if k == 8 {
        assert(expected_outcomes(doc, bin)[k].0 == Status::Fail ==> (expected_outcomes(doc, bin)[k].1 matches Some(d) && d.len() > 0));
    } else if k == 9 {
        assert(expected_outcomes(doc, bin)[k].0 == Status::Fail ==> (expected_outcomes(doc, bin)[k].1 matches Some(d) && d.len() > 0));
    } else if k == 10 {
        assert(expected_outcomes(doc, bin)[k].0 == Status::Fail ==> (expected_outcomes(doc, bin)[k].1 matches Some(d) && d.len() > 0));
    } else if k == 11 {
        assert(expected_outcomes(doc, bin)[k].0 == Status::Fail ==> (expected_outcomes(doc, bin)[k].1 matches Some(d) && d.len() > 0));
    } else if k == 12 {
        assert(expected_outcomes(doc, bin)[k].0 == Status::Fail ==> (expected_outcomes(doc, bin)[k].1 matches Some(d) && d.len() > 0));
    } else if k == 13 {
        assert(expected_outcomes(doc, bin)[k].0 == Status::Fail ==> (expected_outcomes(doc, bin)[k].1 matches Some(d) && d.len() > 0));
    } else if k == 14 {
        assert(expected_outcomes(doc, bin)[k].0 == Status::Fail ==> (expected_outcomes(doc, bin)[k].1 matches Some(d) && d.len() > 0));
    } else if k == 15 {
        assert(expected_outcomes(doc, bin)[k].0 == Status::Fail ==> (expected_outcomes(doc, bin)[k].1 matches Some(d) && d.len() > 0));
    } else if k == 16 {
        assert(expected_outcomes(doc, bin)[k].0 == Status::Fail ==> (expected_outcomes(doc, bin)[k].1 matches Some(d) && d.len() > 0));
    } else if k == 17 {
        lemma_sh_problem_nonempty(doc, 15);
        assert(expected_outcomes(doc, bin)[k].0 == Status::Fail ==> (expected_outcomes(doc, bin)[k].1 matches Some(d) && d.len() > 0));
    } else if k == 18 {
        assert(expected_outcomes(doc, bin)[k].0 == Status::Fail ==> (expected_outcomes(doc, bin)[k].1 matches Some(d) && d.len() > 0));
    } else if k == 19 {
        assert(expected_outcomes(doc, bin)[k].0 == Status::Fail ==> (expected_outcomes(doc, bin)[k].1 matches Some(d) && d.len() > 0));
    } else if k == 20 {
        assert(expected_outcomes(doc, bin)[k].0 == Status::Fail ==> (expected_outcomes(doc, bin)[k].1 matches Some(d) && d.len() > 0));
    } else if k == 21 {
        assert(expected_outcomes(doc, bin)[k].0 == Status::Fail ==> (expected_outcomes(doc, bin)[k].1 matches Some(d) && d.len() > 0));
    } else if k == 22 {
        assert(expected_outcomes(doc, bin)[k].0 == Status::Fail ==> (expected_outcomes(doc, bin)[k].1 matches Some(d) && d.len() > 0));
    } else if k == 23 {
        assert(expected_outcomes(doc, bin)[k].0 == Status::Fail ==> (expected_outcomes(doc, bin)[k].1 matches Some(d) && d.len() > 0));
    } else if k == 24 {
        assert(expected_outcomes(doc, bin)[k].0 == Status::Fail ==> (expected_outcomes(doc, bin)[k].1 matches Some(d) && d.len() > 0));
    } else if k == 25 {
        assert(expected_outcomes(doc, bin)[k].0 == Status::Fail ==> (expected_outcomes(doc, bin)[k].1 matches Some(d) && d.len() > 0));
    } else if k == 26 {
        assert(expected_outcomes(doc, bin)[k].0 == Status::Fail ==> (expected_outcomes(doc, bin)[k].1 matches Some(d) && d.len() > 0));
    } else if k == 27 {
        assert(expected_outcomes(doc, bin)[k].0 == Status::Fail ==> (expected_outcomes(doc, bin)[k].1 matches Some(d) && d.len() > 0));
    } else if k == 28 {
        assert(expected_outcomes(doc, bin)[k].0 == Status::Fail ==> (expected_outcomes(doc, bin)[k].1 matches Some(d) && d.len() > 0));
    } else {
        assert(expected_outcomes(doc, bin)[k].0 == Status::Fail ==> (expected_outcomes(doc, bin)[k].1 matches Some(d) && d.len() > 0));
    }
}


/// The character position that tells apart clause ids of length `len`.
pub open spec fn id_pick(len: nat) -> int {
    if len == 8 {
        0
    } else if len == 11 {
        5
    } else if len == 12 {
        6
    } else if len == 13 {
        5
    } else if len == 14 {
        5
    } else if len == 15 {
        1
    } else if len == 16 {
        1
    } else if len == 17 {
        0
    } else {
        0
    }
}

/// A clause id's length and its character at `id_pick` of that length.
pub open spec fn id_key(s: Seq<char>) -> (nat, char) {
    (s.len(), s[id_pick(s.len())])
}

/// `id_key` of each clause's id, written out.
pub open spec fn clause_key(c: Clause) -> (nat, char) {
    match c {
        Clause::ExtUsed => (8, 'E'),
        Clause::ExtRequired => (12, 'Q'),
        Clause::AssetVersion => (13, '_'),
        Clause::PrimitiveExtensionPresent => (8, 'P'),
        Clause::ExtProjection => (14, 'R'),
        Clause::ExtSorting => (11, 'O'),
        Clause::AttributesObjectPresent => (12, 'O'),
        Clause::PositionPresent => (13, 'P'),
        Clause::RotationPresent => (13, 'R'),
        Clause::ScalePresent => (10, 'A'),
        Clause::OpacityPresent => (12, 'P'),
        Clause::ColorDcPresent => (13, 'C'),
        Clause::PositionAccessor => (12, 'S'),
        Clause::RotationAccessor => (12, 'T'),
        Clause::ScaleAccessor => (9, 'A'),
        Clause::OpacityAccessor => (11, 'P'),
        Clause::ColorDcAccessor => (12, 'L'),
        Clause::ColorShAccessor => (11, 'H'),
        Clause::PositionMinMax => (19, 'A'),
        Clause::ShDegreeRange => (15, 'H'),
        Clause::AccessorCountsAgree => (16, 'C'),
        Clause::BufferViewBounds => (17, 'B'),
        Clause::SpzExtensionDeclared => (12, 'C'),
        Clause::SpzExtensionConsistent => (14, 'O'),
        Clause::NoUnknownAttributes => (16, 'T'),
        Clause::SpzExtPresent => (15, 'P'),
        Clause::SpzVersion => (11, 'E'),
        Clause::SpzBufferView => (14, 'U'),
        Clause::SpzBlobMagic => (14, 'L'),
        Clause::SpzDecodedCount => (17, 'S'),
    }
}

proof fn lemma_id_key(c: Clause)
    ensures
        id_key(clause_id(c)) == clause_key(c),
{
    match c {
        Clause::ExtUsed => reveal_strlit("EXT_USED"),
        Clause::ExtRequired => reveal_strlit("EXT_REQUIRED"),
        Clause::AssetVersion => reveal_strlit("ASSET_VERSION"),
        Clause::PrimitiveExtensionPresent => reveal_strlit("PRIM_EXT"),
        Clause::ExtProjection => reveal_strlit("EXT_PROJECTION"),
        Clause::ExtSorting => reveal_strlit("EXT_SORTING"),
        Clause::AttributesObjectPresent => reveal_strlit("ATTRS_OBJECT"),
        Clause::PositionPresent => reveal_strlit("ATTR_POSITION"),
        Clause::RotationPresent => reveal_strlit("ATTR_ROTATION"),
        Clause::ScalePresent => reveal_strlit("ATTR_SCALE"),
        Clause::OpacityPresent => reveal_strlit("ATTR_OPACITY"),
        Clause::ColorDcPresent => reveal_strlit("ATTR_COLOR_DC"),
        Clause::PositionAccessor => reveal_strlit("ACC_POSITION"),
        Clause::RotationAccessor => reveal_strlit("ACC_ROTATION"),
        Clause::ScaleAccessor => reveal_strlit("ACC_SCALE"),
        Clause::OpacityAccessor => reveal_strlit("ACC_OPACITY"),
        Clause::ColorDcAccessor => reveal_strlit("ACC_COLOR_DC"),
        Clause::ColorShAccessor => reveal_strlit("ACC_SH_COEF"),
        Clause::PositionMinMax => reveal_strlit("ACC_POSITION_MINMAX"),
        Clause::ShDegreeRange => reveal_strlit("SH_DEGREES_FULL"),
        Clause::AccessorCountsAgree => reveal_strlit("ACC_COUNTS_AGREE"),
        Clause::BufferViewBounds => reveal_strlit("BUFFERVIEW_BOUNDS"),
        Clause::SpzExtensionDeclared => reveal_strlit("SPZ_DECLARED"),
        Clause::SpzExtensionConsistent => reveal_strlit("SPZ_CONSISTENT"),
        Clause::NoUnknownAttributes => reveal_strlit("ATTRS_KNOWN_ONLY"),
        Clause::SpzExtPresent => reveal_strlit("SPZ_EXT_PRESENT"),
        Clause::SpzVersion => reveal_strlit("SPZ_VERSION"),
        Clause::SpzBufferView => reveal_strlit("SPZ_BUFFERVIEW"),
        Clause::SpzBlobMagic => reveal_strlit("SPZ_BLOB_MAGIC"),
        Clause::SpzDecodedCount => reveal_strlit("SPZ_DECODED_COUNT"),
    }
}

/// Every clause has its own id: two clauses with the same id are the same
/// clause.
pub proof fn lemma_clause_ids_unique(a: Clause, b: Clause)
    ensures
        clause_id(a) == clause_id(b) ==> a == b,
{
    lemma_id_key(a);
    lemma_id_key(b);
}


/// `s` contains `w`.
pub open spec fn mentions(s: Seq<char>, w: Seq<char>) -> bool {
    exists|k: int| 0 <= k && k + w.len() <= s.len() && #[trigger] s.subrange(k, k + w.len()) == w
}

/// A clause is mandatory exactly when it is not `EXT_REQUIRED`; every
/// mandatory clause's description states a MUST, and the optional one's a
/// SHOULD.
pub proof fn lemma_mandatory_wording(c: Clause)
    ensures
        (c != Clause::ExtRequired) ==> mentions(clause_description(c), "MUST"@),
        c == Clause::ExtRequired ==> mentions(clause_description(c), "SHOULD"@),
{
    reveal_strlit("MUST");
    reveal_strlit("SHOULD");
    match c {
        Clause::ExtUsed => {
            reveal_strlit("Root extensionsUsed array MUST list \"KHR_gaussian_splatting\".");
            assert(clause_description(c).subrange(26int, 26int + "MUST"@.len()) =~= "MUST"@);
        },
        Clause::ExtRequired => {
            reveal_strlit("extensionsRequired SHOULD list \"KHR_gaussian_splatting\" when the asset cannot render without it.");
            assert(clause_description(c).subrange(19int, 19int + "SHOULD"@.len()) =~= "SHOULD"@);
        },
        Clause::AssetVersion => {
            reveal_strlit("asset.version MUST be \"2.0\" per glTF 2.0.");
            assert(clause_description(c).subrange(14int, 14int + "MUST"@.len()) =~= "MUST"@);
        },
        Clause::PrimitiveExtensionPresent => {
            reveal_strlit("At least one mesh.primitives[i].extensions[\"KHR_gaussian_splatting\"] block MUST be present.");
            assert(clause_description(c).subrange(75int, 75int + "MUST"@.len()) =~= "MUST"@);
        },
        Clause::ExtProjection => {
            reveal_strlit("When present, the KHR_gaussian_splatting projection MUST be \"perspective\".");
            assert(clause_description(c).subrange(52int, 52int + "MUST"@.len()) =~= "MUST"@);
        },
        Clause::ExtSorting => {
            reveal_strlit("When present, the KHR_gaussian_splatting sortingMethod MUST be \"cameraDistance\".");
            assert(clause_description(c).subrange(55int, 55int + "MUST"@.len()) =~= "MUST"@);
        },
        Clause::AttributesObjectPresent => {
            reveal_strlit("The splat primitive MUST carry an \"attributes\" object (on the primitive, or on the KHR_gaussian_splatting block in the earlier layout).");
            assert(clause_description(c).subrange(20int, 20int + "MUST"@.len()) =~= "MUST"@);
        },
        Clause::PositionPresent => {
            reveal_strlit("The attributes object MUST declare a POSITION accessor.");
            assert(clause_description(c).subrange(22int, 22int + "MUST"@.len()) =~= "MUST"@);
        },
        Clause::RotationPresent => {
            reveal_strlit("The attributes object MUST declare a KHR_gaussian_splatting:ROTATION (earlier layout: _ROTATION) accessor.");
            assert(clause_description(c).subrange(22int, 22int + "MUST"@.len()) =~= "MUST"@);
        },
        Clause::ScalePresent => {
            reveal_strlit("The attributes object MUST declare a KHR_gaussian_splatting:SCALE (earlier layout: _SCALE) accessor.");
            assert(clause_description(c).subrange(22int, 22int + "MUST"@.len()) =~= "MUST"@);
        },
        Clause::OpacityPresent => {
            reveal_strlit("The attributes object MUST declare a KHR_gaussian_splatting:OPACITY (earlier layout: _OPACITY) accessor.");
            assert(clause_description(c).subrange(22int, 22int + "MUST"@.len()) =~= "MUST"@);
        },
        Clause::ColorDcPresent => {
            reveal_strlit("The attributes object MUST declare a KHR_gaussian_splatting:SH_DEGREE_0_COEF_0 (earlier layout: _COLOR_DC) accessor.");
            assert(clause_description(c).subrange(22int, 22int + "MUST"@.len()) =~= "MUST"@);
        },
        Clause::PositionAccessor => {
            reveal_strlit("POSITION accessor MUST be VEC3 (componentType FLOAT, or normalized UNSIGNED_SHORT/UNSIGNED_BYTE under KHR_mesh_quantization).");
            assert(clause_description(c).subrange(18int, 18int + "MUST"@.len()) =~= "MUST"@);
        },
        Clause::RotationAccessor => {
            reveal_strlit("The rotation accessor MUST be VEC4 (FLOAT, or normalized BYTE/SHORT under KHR_mesh_quantization; FLOAT only in the earlier layout).");
            assert(clause_description(c).subrange(22int, 22int + "MUST"@.len()) =~= "MUST"@);
        },
        Clause::ScaleAccessor => {
            reveal_strlit("_SCALE accessor MUST be VEC3 (FLOAT or normalized integer).");
            assert(clause_description(c).subrange(16int, 16int + "MUST"@.len()) =~= "MUST"@);
        },
        Clause::OpacityAccessor => {
            reveal_strlit("_OPACITY accessor MUST be SCALAR (FLOAT or normalized integer in [0,1]).");
            assert(clause_description(c).subrange(18int, 18int + "MUST"@.len()) =~= "MUST"@);
        },
        Clause::ColorDcAccessor => {
            reveal_strlit("_COLOR_DC accessor MUST be VEC3 (FLOAT or normalized integer in [0,1]).");
            assert(clause_description(c).subrange(19int, 19int + "MUST"@.len()) =~= "MUST"@);
        },
        Clause::ColorShAccessor => {
            reveal_strlit("Each spherical-harmonic coefficient accessor of degree 1 to 3 MUST be VEC3 (FLOAT or normalized integer) with one element per splat (earlier layout: _COLOR_SH MUST be SCALAR FLOAT with 45 elements per splat).");
            assert(clause_description(c).subrange(62int, 62int + "MUST"@.len()) =~= "MUST"@);
        },
        Clause::PositionMinMax => {
            reveal_strlit("POSITION accessor MUST provide both min and max arrays (glTF 2.0 §3.6.2.4).");
            assert(clause_description(c).subrange(18int, 18int + "MUST"@.len()) =~= "MUST"@);
        },
        Clause::ShDegreeRange => {
            reveal_strlit("Spherical-harmonic degrees MUST be complete: every degree up to the highest declared one MUST provide all 2l+1 coefficients (earlier layout: shDegree MUST be in [0, 3], and 0 without _COLOR_SH).");
            assert(clause_description(c).subrange(27int, 27int + "MUST"@.len()) =~= "MUST"@);
        },
        Clause::AccessorCountsAgree => {
            reveal_strlit("All per-splat accessors (POSITION, _ROTATION, _SCALE, _OPACITY, _COLOR_DC) MUST share the same count.");
            assert(clause_description(c).subrange(75int, 75int + "MUST"@.len()) =~= "MUST"@);
        },
        Clause::BufferViewBounds => {
            reveal_strlit("Every referenced accessor's bufferView MUST be in range and its byte footprint MUST fit inside the parent buffer.");
            assert(clause_description(c).subrange(39int, 39int + "MUST"@.len()) =~= "MUST"@);
        },
        Clause::SpzExtensionDeclared => {
            reveal_strlit("If KHR_gaussian_splatting_compression_spz appears anywhere in the asset it MUST be listed in extensionsUsed.");
            assert(clause_description(c).subrange(75int, 75int + "MUST"@.len()) =~= "MUST"@);
        },
        Clause::SpzExtensionConsistent => {
            reveal_strlit("If a primitive declares KHR_gaussian_splatting_compression_spz it MUST also declare KHR_gaussian_splatting on the same primitive.");
            assert(clause_description(c).subrange(66int, 66int + "MUST"@.len()) =~= "MUST"@);
        },
        Clause::NoUnknownAttributes => {
            reveal_strlit("The attributes object MUST NOT contain unknown attribute keys (POSITION, the KHR_gaussian_splatting: ROTATION, SCALE, OPACITY and SH_DEGREE_l_COEF_k keys up to degree 3; earlier layout: POSITION, _ROTATION, _SCALE, _OPACITY, _COLOR_DC, _COLOR_SH).");
            assert(clause_description(c).subrange(22int, 22int + "MUST"@.len()) =~= "MUST"@);
        },
        Clause::SpzExtPresent => {
            reveal_strlit("When KHR_gaussian_splatting_compression_spz is in extensionsUsed, at least one primitive MUST declare it under its own extensions object.");
            assert(clause_description(c).subrange(89int, 89int + "MUST"@.len()) =~= "MUST"@);
        },
        Clause::SpzVersion => {
            reveal_strlit("KHR_gaussian_splatting_compression_spz.version MUST be 2 (the SPZ wire format version).");
            assert(clause_description(c).subrange(47int, 47int + "MUST"@.len()) =~= "MUST"@);
        },
        Clause::SpzBufferView => {
            reveal_strlit("KHR_gaussian_splatting_compression_spz.bufferView MUST be an integer in range of bufferViews[] and the view MUST fit within its buffer.");
            assert(clause_description(c).subrange(50int, 50int + "MUST"@.len()) =~= "MUST"@);
        },
        Clause::SpzBlobMagic => {
            reveal_strlit("The bytes referenced by the SPZ bufferView MUST start with the SPZ magic (0x5053_4e47).");
            assert(clause_description(c).subrange(43int, 43int + "MUST"@.len()) =~= "MUST"@);
        },
        Clause::SpzDecodedCount => {
            reveal_strlit("The splat_count decoded from the SPZ header MUST equal the primitive's declared splatCount (extension or _OPACITY accessor count).");
            assert(clause_description(c).subrange(44int, 44int + "MUST"@.len()) =~= "MUST"@);
        },
    }
}

/// The attribute-accessor clauses check the accessor that their own
/// attribute names. For each of POSITION (VEC3, FLOAT or normalized
/// unsigned integers), rotation (VEC4), scale (VEC3), opacity (SCALAR) and
/// DC color (VEC3), at its place in every report: an undeclared attribute
/// is Skip; an attribute naming a missing accessor, or an accessor of
/// another type, is Fail; an accessor of the wanted type and component type
/// is Pass.
pub proof fn lemma_accessor_clauses_follow_their_attribute(cs: Seq<ClauseResult>, doc: GltfDocument, bin: Option<Seq<u8>>)
    requires
        reports_all(cs, doc, bin),
    ensures
        accessor_clause_law(cs, doc, 12, Clause::PositionAccessor, "POSITION"@, "VEC3"@, seq![5126u32, 5121u32, 5123u32]),
        accessor_clause_law(cs, doc, 13, Clause::RotationAccessor, "_ROTATION"@, "VEC4"@, if rc_layout(doc) {
            seq![5126u32, 5120u32, 5122u32]
        } else {
            seq![5126u32]
        }),
        accessor_clause_law(cs, doc, 14, Clause::ScaleAccessor, "_SCALE"@, "VEC3"@, seq![5126u32, 5121u32, 5123u32]),
        accessor_clause_law(cs, doc, 15, Clause::OpacityAccessor, "_OPACITY"@, "SCALAR"@, seq![5126u32, 5121u32, 5123u32]),
        accessor_clause_law(cs, doc, 16, Clause::ColorDcAccessor, "_COLOR_DC"@, "VEC3"@, seq![5126u32, 5121u32, 5123u32]),
{
    let ix = report_indices(doc);
    let ex = expected_outcomes(doc, bin);
    assert(ix[12] == 12 && ix[13] == 13 && ix[14] == 14 && ix[15] == 15 && ix[16] == 16);
    assert(reports(cs[12], all_clauses()[12], ex[12]));
    assert(reports(cs[13], all_clauses()[13], ex[13]));
    assert(reports(cs[14], all_clauses()[14], ex[14]));
    assert(reports(cs[15], all_clauses()[15], ex[15]));
    assert(reports(cs[16], all_clauses()[16], ex[16]));
}

/// Result `k` of `cs` reports clause `c` about the accessor that attribute
/// `role` names, wanting type `ty` and one of the component types `cts`.
pub open spec fn accessor_clause_law(
    cs: Seq<ClauseResult>,
    doc: GltfDocument,
    k: int,
    c: Clause,
    role: Seq<char>,
    ty: Seq<char>,
    cts: Seq<u32>,
) -> bool {
    &&& k < cs.len()
    &&& cs[k].id@ == clause_id(c)
    &&& attr_index(doc, role) is None ==> cs[k].status == Status::Skip
    &&& attr_index(doc, role) matches Some(i) ==> {
        &&& i >= doc.accessors@.len() ==> cs[k].status == Status::Fail
        &&& (i < doc.accessors@.len() && acc_type(doc.accessors@[i as int]) != ty) ==> cs[k].status
            == Status::Fail
        &&& (i < doc.accessors@.len() && acc_type(doc.accessors@[i as int]) == ty && !cts.contains(
            acc_ct(doc.accessors@[i as int]),
        )) ==> cs[k].status == Status::Fail
        &&& (i < doc.accessors@.len() && acc_type(doc.accessors@[i as int]) == ty && cts.contains(
            acc_ct(doc.accessors@[i as int]),
        )) ==> cs[k].status == Status::Pass
    }
}


/// The accessor the attribute with role `role` names, when it exists.
pub open spec fn role_accessor(doc: GltfDocument, role: Seq<char>) -> Option<JsonAccessor> {
    match attr_index(doc, role) {
        Some(i) => accessor_at(doc, i),
        None => None,
    }
}

/// Further clauses at their places in every report: `EXT_REQUIRED`
/// passes exactly when `extensionsRequired` lists the extension (and is
/// otherwise skipped, never failed); `ACC_POSITION_MINMAX` passes exactly
/// when the POSITION accessor has a three-element `min` and `max`;
/// `ACC_COUNTS_AGREE` fails when two per-splat accessors declare different
/// counts.
pub proof fn lemma_more_clauses_follow_the_document(cs: Seq<ClauseResult>, doc: GltfDocument, bin: Option<Seq<u8>>)
    requires
        reports_all(cs, doc, bin),
    ensures
        cs[1].id@ == clause_id(Clause::ExtRequired),
        (cs[1].status == Status::Pass) <==> lists(doc.extensions_required@, khr_name()),
        cs[1].status != Status::Fail,
        cs[18].id@ == clause_id(Clause::PositionMinMax),
        role_accessor(doc, "POSITION"@) matches Some(acc) ==> ((cs[18].status == Status::Pass) <==> (acc.min_len
            == Some(3usize) && acc.max_len == Some(3usize))),
        role_accessor(doc, "POSITION"@) is Some ==> cs[18].status != Status::Skip,
        cs[20].id@ == clause_id(Clause::AccessorCountsAgree),
        forall|ka: int, kb: int|
            #![trigger per_splat_names()[ka], per_splat_names()[kb]]
            0 <= ka < 5 && 0 <= kb < 5 && role_accessor(doc, per_splat_names()[ka]) is Some && role_accessor(
                doc,
                per_splat_names()[kb],
            ) is Some && or0(role_accessor(doc, per_splat_names()[ka])->0.count) != or0(
                role_accessor(doc, per_splat_names()[kb])->0.count,
            ) ==> cs[20].status == Status::Fail,
{
    let ix = report_indices(doc);
    let ex = expected_outcomes(doc, bin);
    assert(ix[1] == 1 && ix[18] == 18 && ix[20] == 20);
    assert(reports(cs[1], all_clauses()[1], ex[1]));
    assert(reports(cs[18], all_clauses()[18], ex[18]));
    assert(reports(cs[20], all_clauses()[20], ex[20]));
    assert forall|ka: int, kb: int|
        #![trigger per_splat_names()[ka], per_splat_names()[kb]]
        0 <= ka < 5 && 0 <= kb < 5 && role_accessor(doc, per_splat_names()[ka]) is Some && role_accessor(
            doc,
            per_splat_names()[kb],
        ) is Some && or0(role_accessor(doc, per_splat_names()[ka])->0.count) != or0(
            role_accessor(doc, per_splat_names()[kb])->0.count,
        ) implies cs[20].status == Status::Fail by {
        lemma_splat_counts_has(doc, ka, 5);
        lemma_splat_counts_has(doc, kb, 5);
    }
}

/// The per-splat attribute `k` that names an existing accessor appears in
/// the counts the agreement clause compares, with that accessor's count.
proof fn lemma_splat_counts_has(doc: GltfDocument, k: int, m: int)
    requires
        0 <= k < 5,
        k < m <= 5,
        role_accessor(doc, per_splat_names()[k]) is Some,
    ensures
        exists|t: int|
            0 <= t < splat_counts(doc, m).len() && #[trigger] splat_counts(doc, m)[t].1 == or0(
                role_accessor(doc, per_splat_names()[k])->0.count,
            ),
    decreases m,
{
    let c = or0(role_accessor(doc, per_splat_names()[k])->0.count);
    let prev = splat_counts(doc, m - 1);
    if k == m - 1 {
        assert(splat_counts(doc, m)[prev.len() as int].1 == c);
    } else {
        lemma_splat_counts_has(doc, k, m - 1);
        let t = choose|t: int| 0 <= t < prev.len() && #[trigger] prev[t].1 == c;
        assert(splat_counts(doc, m)[t] == prev[t]);
    }
}
} // verus!
