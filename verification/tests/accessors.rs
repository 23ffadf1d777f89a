use splatforge::accessors::{
    accessor_view_range, assemble_splats, chunk_has_sh, decode_accessor_words, emit_float_accessors,
    emit_quantized_accessors, extensions_used, pack_chunk_quantized, scene_sh_degree, spz_extensions,
    spz_placeholder_table, spz_view_range, Accessor, AccessorTable, AccessorType, AccessorWords, BufferView,
    QuantCodes, FLOAT, UBYTE, USHORT,
};
use splatforge::gltf::{pack_chunk_float, GltfError};
use splatforge::ir::{ColorBits, SplatBits};

fn rgb_splat(seed: u32) -> SplatBits {
    SplatBits {
        position: [seed, seed + 1, seed + 2],
        rotation: [seed + 3, seed + 4, seed + 5, seed + 6],
        scale: [seed + 7, seed + 8, seed + 9],
        opacity: seed + 10,
        color: ColorBits::Rgb([seed + 11, seed + 12, seed + 13]),
    }
}

fn sh_splat(seed: u32) -> SplatBits {
    let mut s = rgb_splat(seed);
    s.color = ColorBits::Sh { degree: 3, coeffs: (0..48).map(|k| seed * 100 + k).collect() };
    s
}

fn malformed(e: GltfError) -> String {
    match e {
        GltfError::Malformed(m) => m,
        other => panic!("expected Malformed, got {other:?}"),
    }
}

fn views(t: &AccessorTable) -> Vec<(usize, usize)> {
    t.buffer_views.iter().map(|v| (v.byte_offset, v.byte_length)).collect()
}

#[test]
fn float_layout_offsets_follow_attribute_sizes() {
    let mut t = AccessorTable::new();
    let r = emit_float_accessors(&mut t, 0, 2, false);
    assert_eq!(r, (0, 1, 2, 3, 4, None));
    assert_eq!(views(&t), vec![(0, 24), (24, 32), (56, 24), (80, 8), (88, 24)]);
    assert!(t.accessors.iter().all(|a| a.component_type == FLOAT && !a.normalized && a.count == 2));
    let types: Vec<AccessorType> = t.accessors.iter().map(|a| a.accessor_type).collect();
    assert_eq!(
        types,
        vec![AccessorType::Vec3, AccessorType::Vec4, AccessorType::Vec3, AccessorType::Scalar, AccessorType::Vec3]
    );
}

#[test]
fn float_layout_appends_sh_after_existing_entries() {
    let mut t = AccessorTable::new();
    t.buffer_views.push(BufferView { buffer: 0, byte_offset: 0, byte_length: 4 });
    t.accessors.push(Accessor {
        buffer_view: 0,
        component_type: FLOAT,
        count: 1,
        accessor_type: AccessorType::Scalar,
        normalized: false,
    });
    let r = emit_float_accessors(&mut t, 2, 2, true);
    assert_eq!(r, (1, 2, 3, 4, 5, Some(6)));
    assert_eq!(t.buffer_views[6], BufferView { buffer: 2, byte_offset: 112, byte_length: 360 });
    assert_eq!(t.accessors[6].buffer_view, 6);
    assert_eq!(t.accessors[1].buffer_view, 1);
}

#[test]
fn quantized_layout_position_is_u16_normalized() {
    let mut t = AccessorTable::new();
    let r = emit_quantized_accessors(&mut t, 0, 3, true);
    assert_eq!(r, (0, 1, 2, 3, 4, Some(5)));
    assert_eq!(views(&t), vec![(0, 18), (20, 48), (68, 9), (80, 3), (84, 9), (96, 540)]);
    let comps: Vec<u32> = t.accessors.iter().map(|a| a.component_type).collect();
    assert_eq!(comps, vec![USHORT, FLOAT, UBYTE, UBYTE, UBYTE, FLOAT]);
    let norm: Vec<bool> = t.accessors.iter().map(|a| a.normalized).collect();
    assert_eq!(norm, vec![true, false, true, true, true, false]);
}

#[test]
fn lossless_layout_declares_no_quantization() {
    let names = extensions_used(false, false);
    assert_eq!(names, vec!["KHR_gaussian_splatting".to_string()]);
    let names = extensions_used(true, true);
    assert_eq!(
        names,
        vec![
            "KHR_gaussian_splatting".to_string(),
            "SF_spatial_streaming_index".to_string(),
            "KHR_mesh_quantization".to_string()
        ]
    );
    assert_eq!(
        spz_extensions(),
        vec!["KHR_gaussian_splatting".to_string(), "KHR_gaussian_splatting_compression_spz".to_string()]
    );
}

#[test]
fn quantized_buffer_pads_integer_sections() {
    let chunk = vec![rgb_splat(1)];
    let codes = vec![QuantCodes { position: [0x0102, 0xffff, 0], scale: [7, 8, 9], opacity: 200, color_dc: [1, 2, 3] }];
    let b = pack_chunk_quantized(&chunk, &codes);
    assert_eq!(b.len(), 36);
    assert_eq!(&b[0..8], &[2, 1, 255, 255, 0, 0, 0, 0]);
    assert_eq!(&b[8..12], &4u32.to_le_bytes());
    assert_eq!(&b[24..28], &[7, 8, 9, 0]);
    assert_eq!(&b[28..32], &[200, 0, 0, 0]);
    assert_eq!(&b[32..36], &[1, 2, 3, 0]);
}

#[test]
fn quantized_views_decode_to_codes() {
    let chunk = vec![rgb_splat(1), sh_splat(40)];
    let codes = vec![
        QuantCodes { position: [1, 2, 3], scale: [4, 5, 6], opacity: 7, color_dc: [8, 9, 10] },
        QuantCodes { position: [600, 700, 800], scale: [11, 12, 13], opacity: 14, color_dc: [15, 16, 17] },
    ];
    let bin = pack_chunk_quantized(&chunk, &codes);
    let mut t = AccessorTable::new();
    let (pos, _rot, scl, op, dc, sh) = emit_quantized_accessors(&mut t, 0, 2, chunk_has_sh(&chunk));
    let read = |acc: usize, comps: usize| {
        let (s, e) = accessor_view_range(&t, acc, bin.len()).unwrap();
        decode_accessor_words(&bin[s..e], &t.accessors[acc], comps).unwrap()
    };
    assert!(matches!(read(pos, 3), AccessorWords::Short(h) if h == vec![1, 2, 3, 600, 700, 800]));
    assert!(matches!(read(scl, 3), AccessorWords::Byte(b) if b == vec![4, 5, 6, 11, 12, 13]));
    assert!(matches!(read(op, 1), AccessorWords::Byte(b) if b == vec![7, 14]));
    assert!(matches!(read(dc, 3), AccessorWords::Byte(b) if b == vec![8, 9, 10, 15, 16, 17]));
    let sh_words = match read(sh.unwrap(), 45) {
        AccessorWords::Float(w) => w,
        other => panic!("{other:?}"),
    };
    assert_eq!(sh_words.len(), 90);
    assert!(sh_words[..45].iter().all(|&w| w == 0));
    assert_eq!(sh_words[45], 4003);
}

#[test]
fn float_buffer_reads_back_every_splat() {
    let chunk = vec![rgb_splat(10), rgb_splat(50), rgb_splat(90)];
    let bin = pack_chunk_float(&chunk);
    let mut t = AccessorTable::new();
    let (pos, rot, scl, op, dc, sh) = emit_float_accessors(&mut t, 0, chunk.len(), chunk_has_sh(&chunk));
    assert_eq!(sh, None);
    let read = |acc: usize, comps: usize| {
        let (s, e) = accessor_view_range(&t, acc, bin.len()).unwrap();
        match decode_accessor_words(&bin[s..e], &t.accessors[acc], comps).unwrap() {
            AccessorWords::Float(w) => w,
            other => panic!("{other:?}"),
        }
    };
    let back = assemble_splats(&read(pos, 3), &read(rot, 4), &read(scl, 3), &read(op, 1), &read(dc, 3), &None);
    assert_eq!(back.len(), 3);
    for (a, b) in back.iter().zip(chunk.iter()) {
        assert_eq!(a.position, b.position);
        assert_eq!(a.rotation, b.rotation);
        assert_eq!(a.scale, b.scale);
        assert_eq!(a.opacity, b.opacity);
        match (&a.color, &b.color) {
            (ColorBits::Rgb(x), ColorBits::Rgb(y)) => assert_eq!(x, y),
            _ => panic!("color kind changed"),
        }
    }
}

#[test]
fn float_buffer_reads_back_full_sh() {
    let chunk = vec![sh_splat(1), sh_splat(2)];
    let bin = pack_chunk_float(&chunk);
    let mut t = AccessorTable::new();
    let (pos, rot, scl, op, dc, sh) = emit_float_accessors(&mut t, 0, 2, true);
    let read = |acc: usize, comps: usize| {
        let (s, e) = accessor_view_range(&t, acc, bin.len()).unwrap();
        match decode_accessor_words(&bin[s..e], &t.accessors[acc], comps).unwrap() {
            AccessorWords::Float(w) => w,
            other => panic!("{other:?}"),
        }
    };
    let shw = Some(read(sh.unwrap(), 45));
    let back = assemble_splats(&read(pos, 3), &read(rot, 4), &read(scl, 3), &read(op, 1), &read(dc, 3), &shw);
    for (a, b) in back.iter().zip(chunk.iter()) {
        match (&a.color, &b.color) {
            (ColorBits::Sh { degree: d1, coeffs: c1 }, ColorBits::Sh { degree: d2, coeffs: c2 }) => {
                assert_eq!(d1, d2);
                assert_eq!(c1, c2);
            }
            _ => panic!("color kind changed"),
        }
    }
}

#[test]
fn decode_rejects_short_views_and_unknown_types() {
    let acc = |component_type: u32| Accessor {
        buffer_view: 0,
        component_type,
        count: 2,
        accessor_type: AccessorType::Vec3,
        normalized: false,
    };
    let bytes = [0u8; 11];
    assert_eq!(malformed(decode_accessor_words(&bytes, &acc(FLOAT), 3).unwrap_err()), "accessor under-sized");
    assert_eq!(malformed(decode_accessor_words(&bytes, &acc(USHORT), 3).unwrap_err()), "u16 accessor under-sized");
    assert_eq!(malformed(decode_accessor_words(&bytes[..5], &acc(UBYTE), 3).unwrap_err()), "u8 accessor under-sized");
    assert_eq!(
        malformed(decode_accessor_words(&bytes, &acc(5120), 3).unwrap_err()),
        "unsupported componentType 5120"
    );
    match decode_accessor_words(&[1, 2, 3, 4, 5, 6], &acc(UBYTE), 3).unwrap() {
        AccessorWords::Byte(b) => assert_eq!(b, vec![1, 2, 3, 4, 5, 6]),
        other => panic!("{other:?}"),
    }
    match decode_accessor_words(&[1, 2, 3, 4, 5, 6, 7, 8, 9, 10, 11, 12, 13], &acc(USHORT), 3).unwrap() {
        AccessorWords::Short(h) => assert_eq!(h, vec![0x0201, 0x0403, 0x0605, 0x0807, 0x0a09, 0x0c0b]),
        other => panic!("{other:?}"),
    }
}

#[test]
fn view_ranges_are_checked_against_the_bin_chunk() {
    let mut t = AccessorTable::new();
    t.buffer_views.push(BufferView { buffer: 1, byte_offset: 0, byte_length: 4 });
    t.buffer_views.push(BufferView { buffer: 0, byte_offset: 8, byte_length: 4 });
    for v in 0..2 {
        t.accessors.push(Accessor {
            buffer_view: v,
            component_type: FLOAT,
            count: 1,
            accessor_type: AccessorType::Scalar,
            normalized: false,
        });
    }
    assert_eq!(malformed(accessor_view_range(&t, 0, 100).unwrap_err()), "GLB only supports buffer 0");
    assert_eq!(malformed(accessor_view_range(&t, 1, 11).unwrap_err()), "accessor out of range");
    assert_eq!(accessor_view_range(&t, 1, 12).unwrap(), (8, 12));
    assert_eq!(malformed(spz_view_range(&t, 7, 100).unwrap_err()), "SPZ bufferView 7 out of range");
    assert_eq!(malformed(spz_view_range(&t, 0, 100).unwrap_err()), "SPZ GLB only supports buffer 0");
    assert_eq!(malformed(spz_view_range(&t, 1, 10).unwrap_err()), "SPZ bufferView exceeds BIN chunk");
    assert_eq!(spz_view_range(&t, 1, 12).unwrap(), (8, 12));
}

#[test]
fn spz_document_has_placeholder_accessors() {
    let (t, view, (pos, rot, scl, op, dc)) = spz_placeholder_table(1234);
    assert_eq!(view, 0);
    assert_eq!((pos, rot, scl, op, dc), (0, 1, 2, 3, 4));
    assert_eq!(t.buffer_views.len(), 6);
    assert_eq!(t.buffer_views[0], BufferView { buffer: 0, byte_offset: 0, byte_length: 1234 });
    assert!(t.buffer_views[1..].iter().all(|v| v.byte_length == 0));
    assert!(t.accessors.iter().enumerate().all(|(k, a)| a.count == 0 && a.buffer_view == k + 1));
    assert_eq!(t.accessors[1].accessor_type, AccessorType::Vec4);
    assert_eq!(t.accessors[3].accessor_type, AccessorType::Scalar);
}

#[test]
fn sh_degree_and_presence() {
    assert_eq!(scene_sh_degree(&[0, 2, 1]), 2);
    assert_eq!(scene_sh_degree(&[]), 0);
    assert!(!chunk_has_sh(&[rgb_splat(1)]));
    assert!(chunk_has_sh(&[rgb_splat(1), sh_splat(2)]));
}

#[test]
fn accessor_type_names_round_trip() {
    for t in [AccessorType::Scalar, AccessorType::Vec3, AccessorType::Vec4] {
        assert_eq!(AccessorType::parse(&t.name()), Some(t));
    }
    assert_eq!(AccessorType::Vec4.name(), "VEC4");
    assert_eq!(AccessorType::parse("MAT4"), None);
}
