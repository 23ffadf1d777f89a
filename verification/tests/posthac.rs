use splatforge::posthac::{
    check_code_shape, hash3, read_container, read_header, read_weights, write_container, write_header,
    write_weights, weights_fit_check, HyperpriorConfig, HyperpriorWeights, PostHacError, PostHacHeader,
};

fn bits(v: &[f32]) -> Vec<u32> {
    v.iter().map(|x| x.to_bits()).collect()
}

#[test]
fn header_roundtrip() {
    let cfg = HyperpriorConfig::default_small();
    let h = PostHacHeader {
        n: 1_157_141,
        d: 56,
        sh_degree: 3,
        attr_mn: vec![0.0f32.to_bits(); 56],
        attr_mx: vec![1.0f32.to_bits(); 56],
        pos_mn: [0.0f32.to_bits(); 3],
        pos_mx: [10.0f32.to_bits(); 3],
        config: cfg,
    };
    let mut buf = Vec::new();
    write_header(&mut buf, &h);
    let mut pos = 0usize;
    let h2 = read_header(&buf, &mut pos).unwrap();
    assert_eq!(h.n, h2.n);
    assert_eq!(h.d, h2.d);
    assert_eq!(h.sh_degree, h2.sh_degree);
    assert_eq!(h.pos_mn, h2.pos_mn);
    assert_eq!(h.pos_mx, h2.pos_mx);
    assert_eq!(pos, buf.len());
}

#[test]
fn hash3_stable_under_negative_coords() {
    let a = hash3([0, 0, 0], 1 << 15);
    let b = hash3([0, 0, 0], 1 << 15);
    assert_eq!(a, b);
    // Negative coordinates still land in a valid bucket.
    let c = hash3([-1, 0, 0], 1 << 15);
    assert!(c < (1 << 15));
}

#[test]
fn hash3_is_euclidean_remainder() {
    // -1 ^ 0 ^ 0 == -1, whose non-negative remainder mod 2^15 is 2^15 - 1.
    assert_eq!(hash3([-1, 0, 0], 1 << 15), (1 << 15) - 1);
    // 1 * 2654435761 reduced mod 1000.
    assert_eq!(hash3([0, 1, 0], 1000), 761);
}

fn small_cfg() -> HyperpriorConfig {
    HyperpriorConfig {
        grid_levels: 2,
        features_per_level: 2,
        log2_hashmap_size: 4,
        base_resolution: 4,
        mlp_hidden: 4,
        n_attrs: 3,
    }
}

fn weights_for(cfg: &HyperpriorConfig) -> HyperpriorWeights {
    let table_len = (cfg.grid_levels as usize)
        * (1usize << cfg.log2_hashmap_size)
        * (cfg.features_per_level as usize);
    let n_feats = (cfg.grid_levels as usize) * (cfg.features_per_level as usize);
    let h = cfg.mlp_hidden as usize;
    let out = 2 * cfg.n_attrs as usize;
    let grid: Vec<f32> = (0..table_len).map(|i| i as f32 * 1e-3).collect();
    let fc1_w: Vec<f32> = (0..h * n_feats).map(|i| (i as f32) * 1e-2).collect();
    let fc2_w: Vec<f32> = (0..out * h).map(|i| (i as f32) * 1e-2).collect();
    HyperpriorWeights {
        grid_tables: bits(&grid),
        fc1_w: bits(&fc1_w),
        fc1_b: bits(&vec![0.1f32; h]),
        fc2_w: bits(&fc2_w),
        fc2_b: bits(&vec![0.0f32; out]),
    }
}

#[test]
fn weights_roundtrip() {
    let cfg = small_cfg();
    let wts = weights_for(&cfg);
    let mut buf = Vec::new();
    write_weights(&mut buf, &cfg, &wts);
    let mut pos = 0usize;
    let wts2 = read_weights(&buf, &mut pos, &cfg).unwrap();
    assert_eq!(wts.grid_tables, wts2.grid_tables);
    assert_eq!(wts.fc1_w, wts2.fc1_w);
    assert_eq!(wts.fc1_b, wts2.fc1_b);
    assert_eq!(wts.fc2_w, wts2.fc2_w);
    assert_eq!(wts.fc2_b, wts2.fc2_b);
    assert_eq!(pos, buf.len());
}

#[test]
fn weights_short_stream_is_eof_and_keeps_position() {
    let cfg = small_cfg();
    let wts = weights_for(&cfg);
    let mut buf = Vec::new();
    write_weights(&mut buf, &cfg, &wts);
    buf.truncate(buf.len() - 1);
    let mut pos = 0usize;
    match read_weights(&buf, &mut pos, &cfg) {
        Err(PostHacError::Io(m)) => assert_eq!(m, "failed to fill whole buffer"),
        other => panic!("expected Io, got {:?}", other.map(|_| ())),
    }
    assert_eq!(pos, 0);
}

#[test]
fn bad_magic_rejected() {
    let mut buf = Vec::new();
    buf.extend_from_slice(&0xDEADBEEFu32.to_le_bytes());
    let mut pos = 0usize;
    assert!(matches!(read_header(&buf, &mut pos), Err(PostHacError::BadMagic)));
}

#[test]
fn short_magic_is_truncated() {
    let buf = vec![0x50u8, 0x54];
    let mut pos = 0usize;
    assert!(matches!(read_header(&buf, &mut pos), Err(PostHacError::Truncated("magic"))));
}

#[test]
fn wrong_version_rejected() {
    let mut buf = Vec::new();
    buf.extend_from_slice(&0x4348_5450u32.to_le_bytes());
    buf.extend_from_slice(&7u32.to_le_bytes());
    let mut pos = 0usize;
    assert!(matches!(read_header(&buf, &mut pos), Err(PostHacError::UnsupportedVersion(7))));
}

#[test]
fn container_roundtrip() {
    let cfg = small_cfg();
    let h = PostHacHeader {
        n: 2,
        d: 3,
        sh_degree: 0,
        attr_mn: vec![0; 3],
        attr_mx: vec![1.0f32.to_bits(); 3],
        pos_mn: [0; 3],
        pos_mx: [1.0f32.to_bits(); 3],
        config: cfg,
    };
    let wts = weights_for(&cfg);
    let positions = bits(&[0.0, 1.0, 2.0, 3.0, 4.0, 5.0]);
    let compressed = vec![7u32, 8, 9];
    let mut buf = Vec::new();
    write_container(&mut buf, &h, &wts, &positions, &compressed);
    let k = read_container(&buf).unwrap();
    assert_eq!(k.header.n, 2);
    assert_eq!(k.weights.fc1_w, wts.fc1_w);
    assert_eq!(k.positions, positions);
    assert_eq!(k.compressed, compressed);
}

#[test]
fn code_shape_mismatch_is_reported() {
    assert!(check_code_shape(12, 4, 3, 4).is_ok());
    match check_code_shape(10, 4, 3, 4) {
        Err(PostHacError::ShapeMismatch { expected, got }) => {
            assert_eq!(expected, (4, 3));
            assert_eq!(got, (3, 3));
        }
        _ => panic!("expected shape mismatch"),
    }
    match check_code_shape(12, 4, 3, 5) {
        Err(PostHacError::ShapeMismatch { expected, got }) => {
            assert_eq!(expected, (4, 3));
            assert_eq!(got, (5, 3));
        }
        _ => panic!("expected shape mismatch"),
    }
}

#[test]
fn weight_sizes_must_fit() {
    assert!(weights_fit_check(&small_cfg()));
    assert!(weights_fit_check(&HyperpriorConfig::default_small()));
    let huge = HyperpriorConfig { log2_hashmap_size: 200, ..small_cfg() };
    assert!(!weights_fit_check(&huge));
    let wide = HyperpriorConfig { grid_levels: u32::MAX, log2_hashmap_size: 40, features_per_level: u32::MAX, ..small_cfg() };
    assert!(!weights_fit_check(&wide));
}
