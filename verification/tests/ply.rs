use splatforge::ply::{
    parse_header, read_ply_layout, sh_degree_for_rest, write_ply_header, Format, PlyError, PlyPlan, ScalarTy,
};

const SPLAT_FIELDS: [&str; 14] = [
    "x", "y", "z", "scale_0", "scale_1", "scale_2", "rot_0", "rot_1", "rot_2", "rot_3", "opacity", "f_dc_0",
    "f_dc_1", "f_dc_2",
];

/// A tiny binary PLY with 3 splats.
fn synthesize_binary_ply() -> Vec<u8> {
    let mut buf = Vec::new();
    let mut header = String::from("ply\nformat binary_little_endian 1.0\nelement vertex 3\n");
    for f in SPLAT_FIELDS {
        header.push_str(&format!("property float {f}\n"));
    }
    header.push_str("end_header\n");
    buf.extend_from_slice(header.as_bytes());
    for i in 0..3u32 {
        let f = i as f32;
        let record = [f, f * 0.5, -f, 0.0, 0.0, 0.0, 1.0, 0.0, 0.0, 0.0, 0.0, 0.1, 0.2, 0.3];
        for v in record {
            buf.extend_from_slice(&v.to_le_bytes());
        }
    }
    buf
}

#[test]
fn synthetic_binary_ply_plans_three_records() {
    let bytes = synthesize_binary_ply();
    match read_ply_layout(&bytes).expect("parse ok") {
        PlyPlan::Binary { body, .. } => {
            assert_eq!(body.count, 3);
            assert_eq!(body.body_end - body.body_start, 3 * 14 * 4);
            assert_eq!(body.body_end, bytes.len());
            assert_eq!(body.sh_degree, 0);
        }
        PlyPlan::Ascii { .. } => panic!("expected a binary plan"),
    }
}

#[test]
fn ascii_header_plans_ascii_records() {
    let mut text = String::from("ply\nformat ascii 1.0\nelement vertex 1\n");
    for f in SPLAT_FIELDS {
        text.push_str(&format!("property float {f}\n"));
    }
    text.push_str("end_header\n0 0 0 0 0 0 1 0 0 0 0 0.1 0.2 0.3\n");
    match read_ply_layout(text.as_bytes()).expect("parse ok") {
        PlyPlan::Ascii { header, .. } => {
            assert_eq!(header.format, Format::Ascii);
            assert_eq!(header.elements[0].count, 1);
        }
        PlyPlan::Binary { .. } => panic!("expected an ASCII plan"),
    }
}

#[test]
fn rejects_big_endian() {
    let header = b"ply\nformat binary_big_endian 1.0\nelement vertex 0\nend_header\n";
    let err = read_ply_layout(header).unwrap_err();
    assert!(matches!(err, PlyError::UnsupportedEndian));
}

#[test]
fn rejects_missing_rotation() {
    let mut text = String::from("ply\nformat ascii 1.0\nelement vertex 0\n");
    for f in SPLAT_FIELDS {
        if !f.starts_with("rot_") {
            text.push_str(&format!("property float {f}\n"));
        }
    }
    text.push_str("end_header\n");
    let err = read_ply_layout(text.as_bytes()).unwrap_err();
    assert!(matches!(err, PlyError::MissingRequiredField(_)));
}

#[test]
fn detects_truncated_payload() {
    let mut bytes = synthesize_binary_ply();
    // Truncate to a record-and-a-half.
    bytes.truncate(bytes.len() - 20);
    let err = read_ply_layout(&bytes).unwrap_err();
    assert!(matches!(err, PlyError::TruncatedPayload));
}

#[test]
fn not_a_ply_is_rejected() {
    let err = parse_header(b"plz\nformat ascii 1.0\nend_header\n").unwrap_err();
    assert!(matches!(err, PlyError::NotAPly));
}

#[test]
fn header_records_body_offset() {
    let text = b"ply\nformat ascii 1.0\nelement vertex 2\nproperty float x\nend_header\nrest";
    let h = parse_header(text).unwrap();
    assert_eq!(h.body_offset, text.len() - 4);
    assert_eq!(h.elements.len(), 1);
    assert_eq!(h.elements[0].name, "vertex");
    assert_eq!(h.elements[0].properties[0].ty, ScalarTy::F32);
}

#[test]
fn sh_degree_follows_rest_count() {
    assert_eq!(sh_degree_for_rest(0), 0);
    assert_eq!(sh_degree_for_rest(9), 1);
    assert_eq!(sh_degree_for_rest(24), 2);
    assert_eq!(sh_degree_for_rest(45), 3);
    assert_eq!(sh_degree_for_rest(5), 0);
}

#[test]
fn writer_header_declares_all_properties() {
    let h = write_ply_header(7);
    assert!(h.starts_with("ply\nformat binary_little_endian 1.0\nelement vertex 7\n"));
    assert!(h.ends_with("end_header\n"));
    assert_eq!(h.matches("property float ").count(), 62);
}

#[test]
fn writer_header_reads_back() {
    let h = write_ply_header(12345);
    let mut bytes = h.clone().into_bytes();
    bytes.extend_from_slice(&[1, 2, 3, 4]);
    let parsed = parse_header(&bytes).unwrap();
    assert_eq!(parsed.format, Format::BinaryLE);
    assert_eq!(parsed.body_offset, h.len());
    assert_eq!(parsed.elements.len(), 1);
    let v = &parsed.elements[0];
    assert_eq!((v.name.as_str(), v.count), ("vertex", 12345));
    assert_eq!(v.properties.len(), 62);
    assert!(v.properties.iter().all(|p| p.ty == ScalarTy::F32));
    assert_eq!(v.properties[9].name, "f_rest_0");
    assert_eq!(v.properties[53].name, "f_rest_44");
    assert_eq!(v.properties[61].name, "rot_3");
}

#[test]
fn writer_output_is_a_binary_plan() {
    let h = write_ply_header(3);
    let mut bytes = h.clone().into_bytes();
    bytes.extend(std::iter::repeat(0u8).take(3 * 248));
    match read_ply_layout(&bytes).unwrap() {
        PlyPlan::Binary { vertex_idx, body, .. } => {
            assert_eq!(vertex_idx, 0);
            assert_eq!(body.count, 3);
            assert_eq!(body.body_start, h.len());
            assert_eq!(body.body_end, h.len() + 3 * 248);
            assert_eq!(body.layout.stride, 248);
            assert_eq!(body.sh_degree, 3);
        }
        other => panic!("{other:?}"),
    }
    bytes.pop();
    assert!(matches!(read_ply_layout(&bytes), Err(PlyError::TruncatedPayload)));
}
