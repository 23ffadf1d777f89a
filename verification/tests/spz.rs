use splatforge::spz::{
    encode_spz, join_payload, pack_pos_fixed, pack_quat_head, read_spz_bytes, read_spz_frame, spz_header_for,
    spz_sh_degree, split_payload, unpack_pos_fixed, unpack_quat_head, write_spz_header, SpzError, SpzHeader,
    SpzSections,
};

/// Positions of the five-splat test scene, scaled to 12 fraction bits.
fn fixed(x: f32) -> i32 {
    (x * 4096.0).round() as i32
}

fn tiny_sections(n: usize) -> SpzSections {
    let mut positions = Vec::new();
    for i in 0..n {
        let f = i as f32 * 0.1;
        for p in [f, -f, f * 2.0] {
            positions.extend_from_slice(&pack_pos_fixed(fixed(p)));
        }
    }
    SpzSections {
        positions,
        scales: vec![120; 3 * n],
        rotations: vec![pack_quat_head(3, 31), 127, 127].repeat(n),
        alphas: vec![178; n],
        colors: vec![128, 153, 179].repeat(n),
        sh: None,
    }
}

#[test]
fn header_bytes_round_trip() {
    let h = spz_header_for(5, &[0, 0, 0, 0, 0]);
    let bytes = encode_spz(&h, &join_payload(&tiny_sections(5))).unwrap();
    // Magic at offset 0
    assert_eq!(&bytes[0..4], &[0x47, 0x4E, 0x53, 0x50]);
    // Version u32 LE = 2
    assert_eq!(&bytes[4..8], &[2, 0, 0, 0]);
}

#[test]
fn rejects_bad_magic() {
    let bytes = vec![0u8; 32];
    let err = read_spz_bytes(&bytes).unwrap_err();
    assert!(matches!(err, SpzError::BadMagic));
}

#[test]
fn position_roundtrip_within_tolerance() {
    let sections = tiny_sections(5);
    let h = spz_header_for(5, &[0; 5]);
    let bytes = encode_spz(&h, &join_payload(&sections)).unwrap();
    let (h2, s2) = read_spz_bytes(&bytes).unwrap();
    assert_eq!(h2, h);
    for i in 0..5 {
        let f = i as f32 * 0.1;
        for (k, p) in [f, -f, f * 2.0].iter().enumerate() {
            let at = 9 * i + 3 * k;
            let b = [s2.positions[at], s2.positions[at + 1], s2.positions[at + 2]];
            let back = unpack_pos_fixed(b) as f32 / 4096.0;
            assert!((back - p).abs() < 1e-2);
        }
    }
}

#[test]
fn sections_roundtrip_through_the_container() {
    let mut sections = tiny_sections(3);
    sections.sh = Some((0..135).map(|i| i as u8).collect());
    let h = spz_header_for(3, &[0, 3, 1]);
    assert_eq!(h.sh_degree, 1);
    let bytes = encode_spz(&h, &join_payload(&sections)).unwrap();
    let (h2, s2) = read_spz_bytes(&bytes).unwrap();
    assert_eq!(h2, h);
    assert_eq!(s2, sections);
}

#[test]
fn header_layout_is_fixed() {
    let h = SpzHeader { splat_count: 0x0102_0304, sh_degree: 1, fractional_bits: 12 };
    let b = write_spz_header(&h);
    assert_eq!(b, vec![0x47, 0x4E, 0x53, 0x50, 2, 0, 0, 0, 4, 3, 2, 1, 1, 12, 0, 0]);
}

#[test]
fn short_file_is_truncated() {
    assert!(matches!(read_spz_bytes(&[0x47, 0x4E]), Err(SpzError::Truncated)));
}

#[test]
fn wrong_version_is_rejected() {
    let mut b = write_spz_header(&SpzHeader { splat_count: 0, sh_degree: 0, fractional_bits: 12 });
    b[4] = 3;
    assert!(matches!(read_spz_frame(&b), Err(SpzError::UnsupportedVersion(3))));
}

#[test]
fn garbage_payload_fails_to_inflate() {
    let mut b = write_spz_header(&SpzHeader { splat_count: 1, sh_degree: 0, fractional_bits: 12 });
    b.extend_from_slice(&[0xFF, 0xFF, 0xFF, 0xFF]);
    assert!(matches!(read_spz_bytes(&b), Err(SpzError::Decompress(_))));
}

#[test]
fn short_payload_is_truncated() {
    let h = spz_header_for(4, &[0; 4]);
    let bytes = encode_spz(&h, &join_payload(&tiny_sections(3))).unwrap();
    assert!(matches!(read_spz_bytes(&bytes), Err(SpzError::Truncated)));
    assert!(matches!(split_payload(&[0u8; 18], 1, 0), Err(SpzError::Truncated)));
    assert!(split_payload(&[0u8; 19], 1, 0).is_ok());
}

#[test]
fn fixed_point_positions_clamp_to_24_bits() {
    assert_eq!(pack_pos_fixed(1), [1, 0, 0]);
    assert_eq!(pack_pos_fixed(-1), [0xFF, 0xFF, 0xFF]);
    assert_eq!(unpack_pos_fixed([0xFF, 0xFF, 0xFF]), -1);
    assert_eq!(unpack_pos_fixed(pack_pos_fixed(10_000_000)), 8_388_607);
    assert_eq!(unpack_pos_fixed(pack_pos_fixed(-10_000_000)), -8_388_608);
    assert_eq!(unpack_pos_fixed(pack_pos_fixed(-4096)), -4096);
}

#[test]
fn quaternion_head_packs_index_and_code() {
    let b = pack_quat_head(2, 63);
    assert_eq!(b, 0b1011_1111);
    assert_eq!(unpack_quat_head(b), (2, 63));
    assert_eq!(unpack_quat_head(pack_quat_head(3, 64 + 5)), (3, 5));
}

#[test]
fn sh_degree_is_capped_at_one() {
    assert_eq!(spz_sh_degree(&[]), 0);
    assert_eq!(spz_sh_degree(&[0, 0]), 0);
    assert_eq!(spz_sh_degree(&[0, 3]), 1);
}
