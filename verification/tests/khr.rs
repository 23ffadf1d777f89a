use splatforge::gltf::pack_glb;
use splatforge::khr::{
    baseline_bin, clause_arith_ok, extract_glb_parts, validate_bytes, validate_json, AttributeEntry, Clause, GltfDocument,
    JsonAccessor, JsonBuffer, JsonBufferView, KhrPrimitiveExt, Report, Status, ValidateError,
};

fn s(v: &str) -> String {
    v.to_string()
}

fn accessor(view: u64, ty: &str, minmax: bool) -> JsonAccessor {
    JsonAccessor {
        type_str: Some(s(ty)),
        component_type: Some(5126),
        count: Some(2),
        buffer_view: Some(view),
        min_len: if minmax { Some(3) } else { None },
        max_len: if minmax { Some(3) } else { None },
    }
}

fn view(offset: u64, len: u64) -> JsonBufferView {
    JsonBufferView { buffer: Some(0), byte_offset: Some(offset), byte_length: Some(len) }
}

fn attr(key: &str, i: u64) -> AttributeEntry {
    AttributeEntry { key: s(key), index: Some(i) }
}

/// The baseline asset: two FLOAT splats with every required attribute.
fn valid_doc() -> GltfDocument {
    GltfDocument {
        extensions_used: vec![s("KHR_gaussian_splatting")],
        extensions_required: vec![s("KHR_gaussian_splatting")],
        asset_version: Some(s("2.0")),
        prim_attributes: None,
        khr_ext: Some(KhrPrimitiveExt {
            attributes: Some(vec![
                attr("POSITION", 0),
                attr("_ROTATION", 1),
                attr("_SCALE", 2),
                attr("_OPACITY", 3),
                attr("_COLOR_DC", 4),
            ]),
            sh_degree: Some(0),
            projection: None,
            sorting_method: None,
        }),
        spz_ext: None,
        accessors: vec![
            accessor(0, "VEC3", true),
            accessor(1, "VEC4", false),
            accessor(2, "VEC3", false),
            accessor(3, "SCALAR", false),
            accessor(4, "VEC3", false),
        ],
        buffer_views: vec![view(0, 24), view(24, 32), view(56, 24), view(80, 8), view(88, 24)],
        buffers: vec![JsonBuffer { byte_length: Some(188) }],
    }
}

#[test]
fn baseline_passes() {
    let r = validate_json(&valid_doc(), "test");
    assert!(r.is_pass(), "expected pass, got {:?}", r.clauses);
}

#[test]
fn lib_missing_ext_used_fails() {
    let mut j = valid_doc();
    j.extensions_used = vec![];
    let r = validate_json(&j, "test");
    assert!(!r.is_pass());
    assert!(r.clauses.iter().any(|c| c.id == "EXT_USED" && c.status == Status::Fail));
}

#[test]
fn wrong_rotation_type_fails() {
    let mut j = valid_doc();
    j.accessors[1].type_str = Some(s("VEC3"));
    let r = validate_json(&j, "test");
    assert!(r.clauses.iter().any(|c| c.id == "ACC_ROTATION" && c.status == Status::Fail));
}

#[test]
fn report_counts_match_clauses() {
    let r = validate_json(&valid_doc(), "test");
    assert_eq!(Clause::all().len(), 30);
    assert_eq!(r.clauses.len(), 23);
    assert_eq!(r.pass + r.fail + r.skip, r.clauses.len());
    assert_eq!(r.fail, 0);
    assert_eq!(r.container, "gltf");
    assert_eq!(r.source, "test");
}

#[test]
fn clause_ids_are_stable() {
    assert_eq!(Clause::all()[0].id(), "EXT_USED");
    assert!(!Clause::ExtRequired.is_mandatory());
    assert!(Clause::ExtUsed.is_mandatory());
}

#[test]
fn glb_with_bad_magic_is_rejected() {
    let bytes = vec![0u8; 20];
    assert!(matches!(extract_glb_parts(&bytes), Err(ValidateError::Glb(_))));
}

#[test]
fn baseline_bin_is_the_float_fixture() {
    let mut expect = Vec::new();
    for i in 0..4 {
        let f = i as f32;
        for c in [f, f * 0.5, -f] {
            expect.extend_from_slice(&c.to_le_bytes());
        }
    }
    for _ in 0..4 {
        for c in [0.0_f32, 0.0, 0.0, 1.0] {
            expect.extend_from_slice(&c.to_le_bytes());
        }
    }
    for _ in 0..4 {
        for c in [1.0_f32, 1.0, 1.0] {
            expect.extend_from_slice(&c.to_le_bytes());
        }
    }
    for _ in 0..4 {
        expect.extend_from_slice(&0.5_f32.to_le_bytes());
    }
    for _ in 0..4 {
        for c in [0.1_f32, 0.2, 0.3] {
            expect.extend_from_slice(&c.to_le_bytes());
        }
    }
    assert_eq!(baseline_bin(), expect);
    assert_eq!(expect.len(), 224);
}

#[test]
fn arithmetic_guard_accepts_the_baseline_and_rejects_overflow() {
    let d = valid_doc();
    assert!(clause_arith_ok(&d, None));
    let mut big = valid_doc();
    big.accessors[0].count = Some(u64::MAX);
    assert!(!clause_arith_ok(&big, None));
}

#[test]
fn failure_details_quote_values() {
    let mut j = valid_doc();
    j.accessors[1].type_str = Some(s("VEC3"));
    j.asset_version = Some(s("1.0"));
    let r = validate_json(&j, "test");
    let rot = r.clauses.iter().find(|c| c.id == "ACC_ROTATION").unwrap();
    assert_eq!(rot.detail.as_deref(), Some("_ROTATION.type=\"VEC3\", want one of [\"VEC4\"]"));
    let ver = r.clauses.iter().find(|c| c.status == Status::Fail && c.detail.as_deref().unwrap_or("").starts_with("asset.version")).unwrap();
    assert_eq!(ver.detail.as_deref(), Some("asset.version is \"1.0\", want \"2.0\""));
}

/// The fixture corpus's baseline document (release-candidate layout): four
/// FLOAT splats whose attributes sit on the primitive under
/// `KHR_gaussian_splatting:`-prefixed names.
fn baseline_json(buffer_uri: Option<&str>) -> serde_json::Value {
    let uri = match buffer_uri {
        Some(u) => format!(", \"uri\": \"{u}\""),
        None => String::new(),
    };
    let text = format!(
        r#"{{
        "asset": {{ "version": "2.0", "generator": "splatforge-khr-fixtures" }},
        "extensionsUsed": ["KHR_gaussian_splatting"],
        "buffers": [{{ "byteLength": 224{uri} }}],
        "bufferViews": [
            {{ "buffer": 0, "byteOffset": 0,   "byteLength": 48 }},
            {{ "buffer": 0, "byteOffset": 48,  "byteLength": 64 }},
            {{ "buffer": 0, "byteOffset": 112, "byteLength": 48 }},
            {{ "buffer": 0, "byteOffset": 160, "byteLength": 16 }},
            {{ "buffer": 0, "byteOffset": 176, "byteLength": 48 }}
        ],
        "accessors": [
            {{ "bufferView": 0, "componentType": 5126, "count": 4, "type": "VEC3",
              "min": [0.0, 0.0, -3.0], "max": [3.0, 1.5, 0.0] }},
            {{ "bufferView": 1, "componentType": 5126, "count": 4, "type": "VEC4" }},
            {{ "bufferView": 2, "componentType": 5126, "count": 4, "type": "VEC3" }},
            {{ "bufferView": 3, "componentType": 5126, "count": 4, "type": "SCALAR" }},
            {{ "bufferView": 4, "componentType": 5126, "count": 4, "type": "VEC3" }}
        ],
        "meshes": [{{
            "primitives": [{{
                "mode": 0,
                "attributes": {{
                    "POSITION": 0,
                    "KHR_gaussian_splatting:ROTATION": 1,
                    "KHR_gaussian_splatting:SCALE": 2,
                    "KHR_gaussian_splatting:OPACITY": 3,
                    "KHR_gaussian_splatting:SH_DEGREE_0_COEF_0": 4
                }},
                "extensions": {{
                    "KHR_gaussian_splatting": {{
                        "kernel": "ellipse",
                        "colorSpace": "srgb_rec709_display",
                        "projection": "perspective",
                        "sortingMethod": "cameraDistance"
                    }}
                }}
            }}]
        }}],
        "scenes": [{{ "nodes": [0] }}],
        "scene": 0,
        "nodes": [{{ "mesh": 0 }}]
    }}"#
    );
    serde_json::from_str(&text).unwrap()
}

fn glb_of(v: &serde_json::Value, bin: &[u8]) -> Vec<u8> {
    let mut json = serde_json::to_vec(v).unwrap();
    while json.len() % 4 != 0 {
        json.push(b' ');
    }
    pack_glb(&json, bin)
}

fn write_glb_with(mutate: impl FnOnce(&mut serde_json::Value)) -> Report {
    let mut v = baseline_json(None);
    mutate(&mut v);
    validate_bytes("glb", &glb_of(&v, &baseline_bin()), "fixture.glb").expect("validate")
}

fn write_gltf_with(mutate: impl FnOnce(&mut serde_json::Value)) -> Report {
    let mut v = baseline_json(Some("buffers/chunk_0000.bin"));
    mutate(&mut v);
    let text = serde_json::to_string_pretty(&v).unwrap();
    validate_bytes("gltf", text.as_bytes(), "fixture.gltf").expect("validate")
}

fn clause_status(report: &Report, clause_id: &str) -> Status {
    report
        .clauses
        .iter()
        .find(|c| c.id == clause_id)
        .unwrap_or_else(|| panic!("clause {clause_id} not in report"))
        .status
}

fn failing(report: &Report) -> Vec<String> {
    report.clauses.iter().filter(|c| c.status == Status::Fail).map(|c| format!("{} {:?}", c.id, c.detail)).collect()
}

#[test]
fn valid_baseline_glb_passes_all_clauses() {
    let report = write_glb_with(|_| {});
    assert!(report.is_pass(), "expected no failing clauses, got: {:?}", failing(&report));
    assert_eq!(report.container, "glb");
}

#[test]
fn valid_baseline_gltf_passes_all_clauses() {
    let report = write_gltf_with(|_| {});
    assert!(report.is_pass(), "expected no failing clauses, got: {:?}", failing(&report));
    assert_eq!(report.container, "gltf");
}

#[test]
fn valid_quantized_glb_passes() {
    let mut v = baseline_json(None);
    v["extensionsUsed"] = serde_json::Value::from(vec!["KHR_gaussian_splatting", "KHR_mesh_quantization"]);
    v["buffers"][0]["byteLength"] = serde_json::Value::from(148);
    let views = [(0, 48), (48, 32), (80, 16), (96, 4), (100, 48)];
    for (i, (off, len)) in views.iter().enumerate() {
        v["bufferViews"][i]["byteOffset"] = serde_json::Value::from(*off);
        v["bufferViews"][i]["byteLength"] = serde_json::Value::from(*len);
    }
    v["accessors"][1]["componentType"] = serde_json::Value::from(5122);
    v["accessors"][1]["normalized"] = serde_json::Value::from(true);
    v["accessors"][2]["componentType"] = serde_json::Value::from(5121);
    v["accessors"][2]["normalized"] = serde_json::Value::from(true);
    v["accessors"][3]["componentType"] = serde_json::Value::from(5121);
    v["accessors"][3]["normalized"] = serde_json::Value::from(true);
    let mut bin = Vec::new();
    for i in 0..4 {
        let f = i as f32;
        for c in [f, f * 0.5, -f] {
            bin.extend_from_slice(&c.to_le_bytes());
        }
    }
    for _ in 0..4 {
        for c in [0_i16, 0, 0, i16::MAX] {
            bin.extend_from_slice(&c.to_le_bytes());
        }
    }
    for _ in 0..4 {
        bin.extend_from_slice(&[200u8, 200, 200, 0]);
    }
    for _ in 0..4 {
        bin.push(127);
    }
    for _ in 0..4 {
        for c in [0.1_f32, 0.2, 0.3] {
            bin.extend_from_slice(&c.to_le_bytes());
        }
    }
    assert_eq!(bin.len(), 148);
    let report = validate_bytes("glb", &glb_of(&v, &bin), "quantized.glb").expect("validate");
    assert!(report.is_pass(), "quantized fixture failed: {:?}", failing(&report));
}

#[test]
fn valid_with_sh_evaluates_sh_clauses() {
    let mut v = baseline_json(None);
    v["buffers"][0]["byteLength"] = serde_json::Value::from(368);
    for (k, off) in [224, 272, 320].iter().enumerate() {
        v["bufferViews"].as_array_mut().unwrap().push(serde_json::from_str(&format!(
            r#"{{ "buffer": 0, "byteOffset": {off}, "byteLength": 48 }}"#
        )).unwrap());
        v["accessors"].as_array_mut().unwrap().push(serde_json::from_str(&format!(
            r#"{{ "bufferView": {}, "componentType": 5126, "count": 4, "type": "VEC3" }}"#,
            5 + k
        )).unwrap());
        v["meshes"][0]["primitives"][0]["attributes"][format!("KHR_gaussian_splatting:SH_DEGREE_1_COEF_{k}")] =
            serde_json::Value::from(5 + k);
    }
    let mut bin = baseline_bin();
    for coef in 0..3 {
        for splat in 0..4 {
            let f = splat as f32 + coef as f32 * 0.01;
            for c in [f * 0.01, f * 0.02, f * 0.03] {
                bin.extend_from_slice(&c.to_le_bytes());
            }
        }
    }
    assert_eq!(bin.len(), 368);
    let report = validate_bytes("glb", &glb_of(&v, &bin), "sh.glb").expect("validate");
    assert!(report.is_pass(), "SH fixture failed: {:?}", failing(&report));
    assert_eq!(clause_status(&report, "ACC_SH_COEF"), Status::Pass);
    assert_eq!(clause_status(&report, "SH_DEGREES_FULL"), Status::Pass);
}

#[test]
fn incomplete_sh_degree_fails() {
    let report = write_glb_with(|v| {
        v["meshes"][0]["primitives"][0]["attributes"]["KHR_gaussian_splatting:SH_DEGREE_1_COEF_0"] =
            serde_json::Value::from(4);
    });
    assert_eq!(clause_status(&report, "SH_DEGREES_FULL"), Status::Fail);
    let c = report.clauses.iter().find(|c| c.id == "SH_DEGREES_FULL").unwrap();
    assert_eq!(
        c.detail.as_deref(),
        Some("SH coefficient KHR_gaussian_splatting:SH_DEGREE_1_COEF_1 missing but degree 1 is declared")
    );
}

#[test]
fn defaults_method_glb_passes_with_skips() {
    let report = write_glb_with(|v| {
        let ext = v["meshes"][0]["primitives"][0]["extensions"]["KHR_gaussian_splatting"].as_object_mut().unwrap();
        ext.remove("projection");
        ext.remove("sortingMethod");
    });
    assert!(report.is_pass(), "default-methods fixture failed: {:?}", failing(&report));
    assert_eq!(clause_status(&report, "EXT_PROJECTION"), Status::Skip);
    assert_eq!(clause_status(&report, "EXT_SORTING"), Status::Skip);
}

#[test]
fn fixtures_missing_ext_used_fails() {
    let report = write_glb_with(|v| v["extensionsUsed"] = serde_json::Value::Array(vec![]));
    assert_eq!(clause_status(&report, "EXT_USED"), Status::Fail);
}

#[test]
fn missing_rotation_attribute_fails() {
    let report = write_gltf_with(|v| {
        v["meshes"][0]["primitives"][0]["attributes"].as_object_mut().unwrap().remove("KHR_gaussian_splatting:ROTATION");
    });
    assert_eq!(clause_status(&report, "ATTR_ROTATION"), Status::Fail);
}

#[test]
fn rotation_vec3_fails() {
    let report = write_gltf_with(|v| v["accessors"][1]["type"] = serde_json::Value::from("VEC3"));
    assert_eq!(clause_status(&report, "ACC_ROTATION"), Status::Fail);
}

#[test]
fn position_missing_minmax_fails() {
    let report = write_gltf_with(|v| {
        let acc = v["accessors"][0].as_object_mut().unwrap();
        acc.remove("min");
        acc.remove("max");
    });
    assert_eq!(clause_status(&report, "ACC_POSITION_MINMAX"), Status::Fail);
}

#[test]
fn accessor_count_mismatch_fails() {
    let report = write_gltf_with(|v| v["accessors"][3]["count"] = serde_json::Value::from(7));
    assert_eq!(clause_status(&report, "ACC_COUNTS_AGREE"), Status::Fail);
}

#[test]
fn validate_returns_twenty_three_clauses() {
    let report = write_glb_with(|_| {});
    assert_eq!(report.clauses.len(), 23, "expected exactly 23 clauses, got {}", report.clauses.len());
}

#[test]
fn spz_asset_reports_all_thirty_clauses() {
    let report = write_glb_with(|v| {
        v["extensionsUsed"] = serde_json::Value::from(vec!["KHR_gaussian_splatting", "KHR_gaussian_splatting_compression_spz"]);
    });
    assert_eq!(report.clauses.len(), 30);
    assert_eq!(clause_status(&report, "SPZ_EXT_PRESENT"), Status::Fail);
}

#[test]
fn unsupported_extension_is_rejected() {
    assert!(matches!(validate_bytes("ply", b"{}", "x.ply"), Err(ValidateError::UnsupportedExt(e)) if e == "ply"));
    assert!(matches!(validate_bytes("GLTF", b"{}", "x.GLTF"), Ok(_)));
}

#[test]
fn malformed_json_is_a_json_error() {
    assert!(matches!(validate_bytes("gltf", b"{ not json", "x.gltf"), Err(ValidateError::Json(_))));
}

#[test]
fn glb_errors_come_from_the_container() {
    assert!(matches!(validate_bytes("glb", &[0u8; 20], "x.glb"), Err(ValidateError::Glb(m)) if m == "bad magic"));
}

#[test]
fn clause_ids_are_unique_and_mandatory_clauses_say_must() {
    let all = Clause::all();
    for (i, a) in all.iter().enumerate() {
        for b in &all[i + 1..] {
            assert_ne!(a.id(), b.id());
        }
        if a.is_mandatory() {
            assert!(a.description().contains("MUST"), "{}", a.id());
        } else {
            assert!(a.description().contains("SHOULD"), "{}", a.id());
        }
    }
    assert_eq!(Clause::ExtUsed.id(), "EXT_USED");
    assert_eq!(Clause::PrimitiveExtensionPresent.id(), "PRIM_EXT");
}

#[test]
fn failing_clauses_carry_details_and_come_in_spec_order() {
    let report = write_glb_with(|v| {
        v["asset"]["version"] = serde_json::Value::from("1.0");
        v["extensionsUsed"] = serde_json::Value::Array(vec![]);
    });
    let ids: Vec<&str> = Clause::all().iter().map(|c| c.id()).collect();
    let mut last = None;
    for c in &report.clauses {
        let pos = ids.iter().position(|x| *x == c.id).unwrap();
        assert!(last.map_or(true, |l| l < pos));
        last = Some(pos);
        if c.status == Status::Fail {
            assert!(!c.detail.as_deref().unwrap_or("").is_empty());
        }
    }
    assert!(report.clauses.iter().all(|c| !c.id.starts_with("SPZ_")));
    assert_eq!(clause_status(&report, "ASSET_VERSION"), Status::Fail);
}
