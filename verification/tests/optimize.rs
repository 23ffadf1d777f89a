use splatforge::presets::{preset_names, preset_passes, PassKind};
use splatforge::ir::{ColorBits, SemanticLabel, SplatBits};
use splatforge::optimize::{
    gather, is_finite_bits, lod_indices, morton_code_10, retain_mask, splat_is_finite, stable_order,
    MortonSort, ObjectAwarePruneExperimental, PassContext, PassStats, QuantizePosition, ReduceSHDegree,
    RemoveInvalidSplats,
};

fn splat(p: [f32; 3], opacity: f32, color: ColorBits) -> SplatBits {
    SplatBits {
        position: p.map(f32::to_bits),
        rotation: [0.0f32, 0.0, 0.0, 1.0].map(f32::to_bits),
        scale: [1.0f32; 3].map(f32::to_bits),
        opacity: opacity.to_bits(),
        color,
    }
}

fn rgb() -> ColorBits {
    ColorBits::Rgb([0.5f32; 3].map(f32::to_bits))
}

fn make_scene(n: usize) -> Vec<SplatBits> {
    (0..n)
        .map(|i| {
            let f = i as f32 * 0.01;
            splat([f, -f, f * 2.0], if i < 20 { 0.001 } else { 0.9 }, rgb())
        })
        .collect()
}

fn pos(s: &SplatBits) -> [f32; 3] {
    s.position.map(f32::from_bits)
}

/// The 30-bit Morton codes of the splats over their bounding box.
fn morton_codes(splats: &[SplatBits]) -> Vec<u64> {
    let mut mn = [f32::INFINITY; 3];
    let mut mx = [f32::NEG_INFINITY; 3];
    for s in splats {
        let p = pos(s);
        for i in 0..3 {
            mn[i] = mn[i].min(p[i]);
            mx[i] = mx[i].max(p[i]);
        }
    }
    splats
        .iter()
        .map(|s| {
            let p = pos(s);
            let mut q = [0u32; 3];
            for a in 0..3 {
                let span = (mx[a] - mn[a]).max(1e-9);
                q[a] = (((p[a] - mn[a]) / span).clamp(0.0, 1.0) * 1023.0).round() as u32;
            }
            morton_code_10(q)
        })
        .collect()
}

#[test]
fn morton_sort_is_deterministic() {
    let mut a = make_scene(50);
    let mut b = make_scene(50);
    let mut ctx = PassContext::default();
    let ca = morton_codes(&a);
    let cb = morton_codes(&b);
    let sa = MortonSort.run(&mut a, &ca, &mut ctx);
    MortonSort.run(&mut b, &cb, &mut ctx);
    assert_eq!(sa.modified, 50);
    let positions_a: Vec<_> = a.iter().map(|s| s.position).collect();
    let positions_b: Vec<_> = b.iter().map(|s| s.position).collect();
    assert_eq!(positions_a, positions_b);
    let sorted = morton_codes(&a);
    assert!(sorted.windows(2).all(|w| w[0] <= w[1]));
}

#[test]
fn remove_invalid_drops_nan() {
    let mut scene = make_scene(5);
    scene[2].position[0] = f32::NAN.to_bits();
    let mut ctx = PassContext::default();
    let stats = RemoveInvalidSplats.run(&mut scene, &mut ctx);
    assert_eq!(stats.removed, 1);
    assert_eq!(scene.len(), 4);
    assert!(scene.iter().all(splat_is_finite));
}

#[test]
fn remove_invalid_is_idempotent_and_checks_sh() {
    let mut scene = make_scene(4);
    let mut c = vec![0u32; 12];
    c[11] = f32::INFINITY.to_bits();
    scene[0].color = ColorBits::Sh { degree: 1, coeffs: c };
    scene[3].opacity = f32::NEG_INFINITY.to_bits();
    let mut ctx = PassContext { seed: 9 };
    let first = RemoveInvalidSplats.run(&mut scene, &mut ctx);
    assert_eq!(first.removed, 2);
    let second = RemoveInvalidSplats.run(&mut scene, &mut ctx);
    assert_eq!(second.removed, 0);
    assert_eq!(scene.len(), 2);
    assert_eq!(ctx.seed, 9);
}

#[test]
fn finiteness_follows_the_exponent() {
    assert!(is_finite_bits(1.5f32.to_bits()));
    assert!(is_finite_bits(f32::MAX.to_bits()));
    assert!(!is_finite_bits(f32::INFINITY.to_bits()));
    assert!(!is_finite_bits(f32::NAN.to_bits()));
    assert!(!is_finite_bits((-f32::NAN).to_bits()));
}

#[test]
fn reduce_sh_collapses_to_rgb() {
    let coeffs = vec![0.1f32.to_bits(); 27];
    let mut scene = vec![splat([0.0; 3], 0.5, ColorBits::Sh { degree: 2, coeffs })];
    let mut ctx = PassContext::default();
    let stats = ReduceSHDegree { target_degree: 0 }.run(&mut scene, &mut ctx);
    assert!(matches!(scene[0].color, ColorBits::Rgb(_)));
    assert_eq!(stats.modified, 1);
}

#[test]
fn reduce_sh_to_degree_1_preserves_degree_1_coeffs() {
    // Degree-3 source: 3 DC + (3+5+7)*3 = 48 scalars total.
    let coeffs: Vec<u32> = (0..48).map(|i| (0.01 * i as f32).to_bits()).collect();
    let mut scene = vec![splat([0.0; 3], 0.5, ColorBits::Sh { degree: 3, coeffs: coeffs.clone() })];
    let mut ctx = PassContext::default();
    ReduceSHDegree { target_degree: 1 }.run(&mut scene, &mut ctx);
    // Expect degree 1 with 3 DC + 3*3 = 12 scalars, the first 12 preserved.
    match &scene[0].color {
        ColorBits::Sh { degree, coeffs: out } => {
            assert_eq!(*degree, 1, "target_degree=1 must reduce to degree 1");
            assert_eq!(out.len(), 12, "degree-1 SH has 4 bands x 3 channels = 12");
            for i in 0..12 {
                assert_eq!(out[i], coeffs[i], "coefficient {i} drifted");
            }
        }
        other => panic!("expected SH degree 1, got {other:?}"),
    }
}

#[test]
fn reduce_sh_leaves_low_degrees_alone() {
    let mut scene = vec![
        splat([0.0; 3], 0.5, ColorBits::Sh { degree: 1, coeffs: vec![7; 12] }),
        splat([1.0; 3], 0.5, rgb()),
        splat([2.0; 3], 0.5, ColorBits::Sh { degree: 2, coeffs: vec![1, 2] }),
    ];
    let mut ctx = PassContext::default();
    let stats = ReduceSHDegree { target_degree: 1 }.run(&mut scene, &mut ctx);
    assert_eq!(stats.modified, 1);
    assert!(matches!(&scene[0].color, ColorBits::Sh { degree: 1, coeffs } if coeffs.len() == 12));
    // fewer coefficients than degree 1 needs: all of them are kept
    assert!(matches!(&scene[2].color, ColorBits::Sh { degree: 1, coeffs } if coeffs == &vec![1, 2]));
    // a second run changes nothing
    assert_eq!(ReduceSHDegree { target_degree: 1 }.run(&mut scene, &mut ctx).modified, 0);
}

#[test]
fn build_lod_levels_are_subsamples() {
    let lod0 = lod_indices(100, 1);
    assert_eq!(lod0.len(), 100);
    // Stride 2 over 100 -> 50; stride 4 over 100 -> 25.
    let l1 = lod_indices(100, 2);
    let l2 = lod_indices(100, 4);
    assert_eq!(l1.len(), 50);
    assert_eq!(l2.len(), 25);
    assert_eq!(l1, lod_indices(100, 2));
    assert_eq!(&l2[..3], &[0, 4, 8]);
    assert_eq!(lod_indices(10, 3), vec![0, 3, 6, 9]);
    assert!(lod_indices(0, 3).is_empty());
}

/// Every index, sparsest first: by decreasing sum of squared distances to
/// the eight nearest neighbours, ties by index.
fn sparsest_first(splats: &[SplatBits]) -> Vec<usize> {
    let n = splats.len();
    let k = 8usize.min(n - 1);
    let mut scores: Vec<(usize, f32)> = Vec::new();
    for i in 0..n {
        let a = pos(&splats[i]);
        let mut d: Vec<f32> = (0..n)
            .filter(|&j| j != i)
            .map(|j| {
                let b = pos(&splats[j]);
                (a[0] - b[0]).powi(2) + (a[1] - b[1]).powi(2) + (a[2] - b[2]).powi(2)
            })
            .collect();
        d.sort_by(|x, y| x.partial_cmp(y).unwrap());
        scores.push((i, d.iter().take(k).sum()));
    }
    scores.sort_by(|a, b| b.1.partial_cmp(&a.1).unwrap().then(a.0.cmp(&b.0)));
    scores.into_iter().map(|(i, _)| i).collect()
}

#[test]
fn object_aware_prune_preserves_protected_labels() {
    // The first 10 are "product" at sparse positions; the other 90 cluster.
    let mut scene = Vec::new();
    let mut labels = Vec::new();
    for i in 0..10 {
        let f = 100.0 + i as f32 * 5.0;
        scene.push(splat([f, f, f], 0.05, rgb()));
        labels.push(SemanticLabel("product".to_string()));
    }
    for i in 0..90 {
        let f = i as f32 * 0.001;
        scene.push(splat([f, -f, f * 0.5], 0.5, rgb()));
        labels.push(SemanticLabel("background".to_string()));
    }
    let mut labels = Some(labels);
    let order = sparsest_first(&scene);
    let faint: Vec<bool> = scene.iter().map(|s| f32::from_bits(s.opacity) < 0.1).collect();
    let pass = ObjectAwarePruneExperimental { protect_labels: vec!["product".to_string()] };
    let out = pass.run(&mut scene, &mut labels, &order, &faint);
    assert!(!out.skipped);
    let labels = labels.expect("labels survive");
    let product_count = labels.iter().filter(|l| l.0 == "product").count();
    assert_eq!(product_count, 10, "all product splats preserved");
    assert_eq!(out.removed, 0);
}

#[test]
fn object_aware_prune_without_protection_drops_sparse_faint_splats() {
    let mut scene = Vec::new();
    for i in 0..10 {
        let f = 100.0 + i as f32 * 5.0;
        scene.push(splat([f, f, f], 0.05, rgb()));
    }
    for i in 0..90 {
        let f = i as f32 * 0.001;
        scene.push(splat([f, -f, f * 0.5], 0.5, rgb()));
    }
    let mut labels = None;
    let order = sparsest_first(&scene);
    let faint: Vec<bool> = scene.iter().map(|s| f32::from_bits(s.opacity) < 0.1).collect();
    let out = ObjectAwarePruneExperimental::default().run(&mut scene, &mut labels, &order, &faint);
    assert_eq!(out.decile, 10);
    assert_eq!(out.removed, 10);
    assert_eq!(scene.len(), 90);
}

#[test]
fn object_aware_prune_flat_scene_is_conservative() {
    // Uniform lattice: pruning is bounded by the sparsest decile.
    let mut scene = Vec::new();
    let side = 5;
    for x in 0..side {
        for y in 0..side {
            for z in 0..side {
                scene.push(splat([x as f32, y as f32, z as f32], 0.05, rgb()));
            }
        }
    }
    let n = scene.len();
    let mut labels = None;
    let order = sparsest_first(&scene);
    let faint: Vec<bool> = scene.iter().map(|s| f32::from_bits(s.opacity) < 0.1).collect();
    let out = ObjectAwarePruneExperimental::default().run(&mut scene, &mut labels, &order, &faint);
    let decile = n.div_ceil(10);
    assert!(out.removed <= decile, "pruned {} but decile is {}", out.removed, decile);
}

#[test]
fn object_aware_prune_skips_small_scenes() {
    let mut scene = make_scene(9);
    let mut labels = None;
    let out = ObjectAwarePruneExperimental::default().run(&mut scene, &mut labels, &vec![], &vec![]);
    assert!(out.skipped);
    assert_eq!(scene.len(), 9);
}

#[test]
fn stable_order_breaks_ties_by_index() {
    assert_eq!(stable_order(&[5, 1, 5, 0, 1]), vec![3, 1, 4, 0, 2]);
    assert!(stable_order(&[]).is_empty());
}

#[test]
fn gather_and_mask_move_items() {
    let items = vec!["a".to_string(), "b".to_string(), "c".to_string()];
    assert_eq!(gather(items, &vec![2, 0, 1]), vec!["c", "a", "b"]);
    let mut v = vec![1, 2, 3, 4];
    assert_eq!(retain_mask(&mut v, &vec![true, false, false, true]), 2);
    assert_eq!(v, vec![1, 4]);
}

#[test]
fn defaults_and_names() {
    let s = PassStats::default();
    assert_eq!((s.removed, s.modified, s.duration_ms, s.notes.len()), (0, 0, 0, 0));
    assert_eq!(QuantizePosition::default().bits, 16);
    assert_eq!(ReduceSHDegree::default().target_degree, 0);
    assert_eq!(MortonSort.name(), "MortonSort");
    assert_eq!(RemoveInvalidSplats.name(), "RemoveInvalidSplats");
}

#[test]
fn preset_unknown_errors() {
    assert!(preset_passes("does-not-exist").is_err());
    assert_eq!(preset_passes("does-not-exist").unwrap_err(), "unknown preset 'does-not-exist'");
}

#[test]
fn web_mobile_preset_passes_in_order() {
    let passes = preset_passes("web-mobile").unwrap();
    let kinds: Vec<PassKind> = passes.iter().map(|p| p.kind).collect();
    assert_eq!(
        kinds,
        vec![
            PassKind::RemoveInvalidSplats,
            PassKind::OpacityPrune,
            PassKind::AspectRatioPrune,
            PassKind::FloaterPrune,
            PassKind::QuantizePosition,
            PassKind::QuantizeScale,
            PassKind::QuantizeRotation,
            PassKind::ReduceSHDegree,
            PassKind::MortonSort,
            PassKind::BuildLOD,
        ]
    );
    assert_eq!(passes[1].param, 20);
    assert_eq!(passes[2].param, 100);
    assert_eq!(passes[4].param, 15);
    assert_eq!(passes[9].levels, vec![500, 250]);
}

#[test]
fn every_catalog_name_is_a_preset() {
    let names = preset_names();
    assert_eq!(names.len(), 11);
    for n in &names {
        assert!(preset_passes(n).is_ok(), "{n}");
    }
    let lossless = preset_passes("quality-max").unwrap();
    assert_eq!(lossless.len(), 2);
    assert_eq!(preset_passes("hero-quality").unwrap()[4].kind, PassKind::BackgroundOverdrawPrune);
}
