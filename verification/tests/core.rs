use splatforge::coords::{CoordinateSystem, Handedness, UpAxis};
use splatforge::detect::{format_from_extension, format_from_magic};
use splatforge::gltf::{
    align_up, check_chunk_bytes, chunk_buffer_uri, default_gltf_path, inspect_extensions, is_false,
    pack_chunk_float, pack_glb, pad_to, pad_to_4, plain_inspect_report, read_glb_chunks, read_u32_le, GltfError,
    IndexChunk, InspectDoc, QuantizeLayout, SpzVariant,
};
use splatforge::ir::{blake3_hash, blake3_tagged, hex_string, scene_hash, scene_stream_bytes, ColorBits, SplatBits, TemporalMode};

fn three_splats() -> Vec<SplatBits> {
    (0..3u32)
        .map(|i| {
            let f = i as f32;
            SplatBits {
                position: [f, f * 0.5, -f].map(f32::to_bits),
                rotation: [0.0f32, 0.0, 0.0, 1.0].map(f32::to_bits),
                scale: [1.0f32; 3].map(f32::to_bits),
                opacity: (0.5 + f * 0.1).to_bits(),
                color: ColorBits::Rgb([f * 0.1, 0.2, 0.3].map(f32::to_bits)),
            }
        })
        .collect()
}

#[test]
fn hash_is_stable() {
    let a = three_splats();
    let b = three_splats();
    assert_eq!(scene_hash(&a), scene_hash(&b));
    assert!(scene_hash(&a).starts_with("blake3:"));
}

#[test]
fn hash_changes_with_position() {
    let mut a = three_splats();
    let b = three_splats();
    a[0].position[0] = (f32::from_bits(a[0].position[0]) + 1.0).to_bits();
    assert_ne!(scene_hash(&a), scene_hash(&b));
}

#[test]
fn scene_stream_is_the_little_endian_bytes() {
    let s = three_splats();
    let bytes = scene_stream_bytes(&s[..1]);
    assert_eq!(bytes.len(), 14 * 4);
    assert_eq!(&bytes[12..16], &0.0f32.to_le_bytes());
    assert_eq!(&bytes[24..28], &1.0f32.to_le_bytes());
    // the hash is BLAKE3 over exactly this stream
    assert_eq!(scene_hash(&s[..1]), format!("blake3:{}", blake3::hash(&bytes).to_hex()));
    let sh = vec![SplatBits { color: ColorBits::Sh { degree: 1, coeffs: vec![7; 12] }, ..s[0].clone() }];
    assert_eq!(scene_stream_bytes(&sh).len(), 11 * 4 + 1 + 12 * 4);
}

#[test]
fn blake3_helpers_match_the_crate() {
    let d = blake3_hash(b"abc");
    assert_eq!(d, blake3::hash(b"abc").as_bytes().to_vec());
    assert_eq!(hex_string(&[0x00, 0xAB, 0x0F]), "00ab0f");
    assert_eq!(blake3_tagged(b"abc"), format!("blake3:{}", blake3::hash(b"abc").to_hex()));
}

#[test]
fn formats_from_extension() {
    assert_eq!(format_from_extension("scene.PLY"), Some("ply"));
    assert_eq!(format_from_extension("a/b/c.glb"), Some("glb"));
    assert_eq!(format_from_extension("a/b/c.spz/"), Some("spz"));
    assert_eq!(format_from_extension(".ply"), None);
    assert_eq!(format_from_extension("noext"), None);
    assert_eq!(format_from_extension("x.obj"), None);
}

#[test]
fn formats_from_magic() {
    assert_eq!(format_from_magic(b"glTF\x02\0\0\0"), Some("glb"));
    assert_eq!(format_from_magic(b"ply\nformat"), Some("ply"));
    assert_eq!(format_from_magic(&[0x47, 0x4E, 0x53, 0x50, 2, 0, 0, 0]), Some("spz"));
    assert_eq!(format_from_magic(b"PXR-USDC...."), Some("usdc"));
    assert_eq!(format_from_magic(b"  #usda 1.0\n"), Some("usda"));
    assert_eq!(format_from_magic(b"{ \"asset\": {} }"), Some("gltf"));
    assert_eq!(format_from_magic(b"{ \"x\": 1 }"), None);
    assert_eq!(format_from_magic(b"pl"), None);
}

#[test]
fn coordinate_labels() {
    let c = CoordinateSystem::default();
    assert_eq!(c.up, UpAxis::Y);
    assert_eq!(c.handedness, Handedness::Right);
    assert_eq!(c.up_label(), "Y");
    assert_eq!(c.handedness_label(), "right");
    let z = CoordinateSystem { up: UpAxis::Z, handedness: Handedness::Left };
    assert_eq!((z.up_label(), z.handedness_label()), ("Z", "left"));
    assert_ne!(TemporalMode::Static, TemporalMode::Dynamic);
}

#[test]
fn glb_roundtrip() {
    let json = br#"{"asset":{"version":"2.0"}}"#;
    let bin = [1u8, 2, 3, 4, 5];
    let glb = pack_glb(json, &bin);
    assert_eq!(glb.len() % 4, 0);
    let (text, b) = read_glb_chunks(&glb).unwrap();
    assert_eq!(text.as_bytes(), json);
    assert_eq!(&b[..5], &bin);
    assert_eq!(b.len(), 8);
    assert!(matches!(read_glb_chunks(&glb[..8]), Err(GltfError::Malformed(m)) if m == "file too small for GLB"));
}

#[test]
fn alignment_helpers() {
    assert_eq!(align_up(5, 4), 8);
    assert_eq!(align_up(8, 4), 8);
    assert_eq!(align_up(0, 16), 0);
    let mut v = vec![1u8, 2, 3];
    pad_to(&mut v, 4);
    assert_eq!(v, vec![1, 2, 3, 0]);
    let mut w = vec![b'{', b'}'];
    pad_to_4(&mut w, b' ');
    assert_eq!(w, b"{}  ".to_vec());
    assert_eq!(read_u32_le(&[1, 0, 0, 0, 9], 0).unwrap(), 1);
    assert!(read_u32_le(&[1, 0, 0], 0).is_err());
    assert_eq!(default_gltf_path("out"), "out/scene.gltf");
    assert_eq!(default_gltf_path("out/"), "out/scene.gltf");
    assert_eq!(SpzVariant::V2.version(), 2);
    assert!(is_false(&false));
    assert!(!is_false(&true));
    assert!(QuantizeLayout::quantized().enabled);
    assert!(!QuantizeLayout::float_only().enabled);
}

fn doc(used: &[&str], version: Option<&str>) -> InspectDoc {
    InspectDoc {
        extensions_used: used.iter().map(|s| s.to_string()).collect(),
        khr_version: version.map(|v| v.to_string()),
        chunks: vec![],
        buffer_uris: vec![Some("chunk_0.bin".to_string()), None],
        opacity_count: 42,
    }
}

#[test]
fn inspect_checks_extensions() {
    assert!(matches!(inspect_extensions(&doc(&[], None)), Err(GltfError::MissingExtension)));
    assert!(matches!(
        inspect_extensions(&doc(&["KHR_gaussian_splatting"], Some("2"))),
        Err(GltfError::UnsupportedVersion(v)) if v == "2"
    ));
    assert!(!inspect_extensions(&doc(&["KHR_gaussian_splatting"], Some("1"))).unwrap());
    assert!(inspect_extensions(&doc(&["KHR_gaussian_splatting", "SF_spatial_streaming_index"], None)).unwrap());
    let r = plain_inspect_report(&doc(&["KHR_gaussian_splatting"], None));
    assert_eq!(r.splat_count, 42);
    assert!(r.has_khr && !r.has_spatial_index && r.checksum_ok);
}

#[test]
fn inspect_resolves_and_checks_chunks() {
    let d = doc(&["KHR_gaussian_splatting"], None);
    let data = b"0123456789".to_vec();
    let good = IndexChunk {
        buffer: Some(0),
        byte_offset: 2,
        byte_length: 4,
        checksum: format!("blake3:{}", blake3::hash(b"2345").to_hex()),
        splat_count: 7,
    };
    assert_eq!(chunk_buffer_uri(0, &good, &d.buffer_uris).unwrap(), "chunk_0.bin");
    assert_eq!(check_chunk_bytes(0, &good, &data).unwrap(), 7);
    let bad = IndexChunk { checksum: "blake3:00".to_string(), ..good.clone() };
    assert!(matches!(check_chunk_bytes(3, &bad, &data), Err(GltfError::ChecksumMismatch(3))));
    let no_buffer = IndexChunk { buffer: None, ..good.clone() };
    assert!(matches!(chunk_buffer_uri(0, &no_buffer, &d.buffer_uris), Err(GltfError::Malformed(m)) if m == "chunk missing buffer"));
    let far = IndexChunk { buffer: Some(5), ..good.clone() };
    assert!(matches!(chunk_buffer_uri(4, &far, &d.buffer_uris), Err(GltfError::Malformed(m)) if m == "chunk 4 references missing buffer"));
    let no_uri = IndexChunk { buffer: Some(1), ..good };
    assert!(matches!(chunk_buffer_uri(0, &no_uri, &d.buffer_uris), Err(GltfError::Malformed(m)) if m == "buffer has no uri"));
}

#[test]
fn float_chunk_buffer_layout() {
    let s = three_splats();
    let buf = pack_chunk_float(&s);
    assert_eq!(buf.len(), 3 * (12 + 16 + 12 + 4 + 12));
    // rotation section starts after the three positions
    assert_eq!(&buf[36..40], &0.0f32.to_le_bytes());
    assert_eq!(&buf[48..52], &1.0f32.to_le_bytes());
    let mut sh = s.clone();
    sh[1].color = ColorBits::Sh { degree: 1, coeffs: (0..12).collect() };
    let buf = pack_chunk_float(&sh);
    assert_eq!(buf.len(), 3 * (12 + 16 + 12 + 4 + 12) + 3 * 45 * 4);
    // the SH splat's DC is its first three coefficients
    let dc = 3 * (12 + 16 + 12 + 4);
    assert_eq!(&buf[dc + 12..dc + 16], &0u32.to_le_bytes());
    assert_eq!(&buf[dc + 20..dc + 24], &2u32.to_le_bytes());
    // its rest starts at coefficient 3; the RGB splats' rest is zero
    let rest = dc + 36;
    assert_eq!(&buf[rest + 180..rest + 184], &3u32.to_le_bytes());
    assert_eq!(&buf[rest..rest + 4], &0u32.to_le_bytes());
}

#[test]
fn inspect_text_reads_the_streaming_index() {
    let data: Vec<u8> = (0u8..16).collect();
    let label = splatforge::ir::blake3_tagged(&data[4..12]);
    let text = format!(
        r#"{{
        "extensionsUsed": ["KHR_gaussian_splatting", "SF_spatial_streaming_index"],
        "extensions": {{ "SF_spatial_streaming_index": {{ "chunks": [
            {{ "buffer": 0, "byteOffset": 4, "byteLength": 8, "checksum": "{label}", "splatCount": 5 }},
            {{ "buffer": 0, "byteOffset": 0, "byteLength": 4, "checksum": "{}", "splatCount": 7 }}
        ] }} }},
        "buffers": [{{ "uri": "buffers/chunk_0000.bin", "byteLength": 16 }}]
    }}"#,
        splatforge::ir::blake3_tagged(&data[0..4])
    );
    let doc = splatforge::gltf::inspect_text(&text).expect("parse");
    assert_eq!(doc.chunks.len(), 2);
    assert_eq!(doc.buffer_uris, vec![Some("buffers/chunk_0000.bin".to_string())]);
    let bufs = vec![Some(data.clone())];
    assert!(splatforge::gltf::chunks_in_range(&doc, &bufs));
    let r = splatforge::gltf::inspect_document(&doc, &bufs).expect("inspect");
    assert!(r.has_spatial_index && r.checksum_ok);
    assert_eq!(r.chunk_count, 2);
    assert_eq!(r.splat_count, 12);
    // A missing buffer file is reported with its URI.
    let r = splatforge::gltf::inspect_document(&doc, &vec![None]);
    assert!(matches!(r, Err(GltfError::BufferNotFound(u)) if u == "buffers/chunk_0000.bin"));
    // A corrupted byte breaks the first chunk's checksum.
    let mut bad = data.clone();
    bad[5] ^= 1;
    let r = splatforge::gltf::inspect_document(&doc, &vec![Some(bad)]);
    assert!(matches!(r, Err(GltfError::ChecksumMismatch(0))));
}

#[test]
fn inspect_text_without_index_counts_opacity() {
    let text = r#"{
        "extensionsUsed": ["KHR_gaussian_splatting"],
        "accessors": [{ "count": 3 }, { "count": 9 }],
        "meshes": [{ "primitives": [{ "extensions": { "KHR_gaussian_splatting": {
            "attributes": { "_OPACITY": 1 } } } }] }]
    }"#;
    let doc = splatforge::gltf::inspect_text(text).expect("parse");
    assert_eq!(doc.opacity_count, 9);
    let r = splatforge::gltf::inspect_document(&doc, &vec![]).expect("inspect");
    assert!(!r.has_spatial_index);
    assert_eq!(r.splat_count, 9);
    assert!(matches!(splatforge::gltf::inspect_text("{"), Err(GltfError::Json(_))));
}
