//! The built-in optimization presets: which passes each one runs, in order,
//! with their parameters. Fractional parameters are held as exact decimal
//! fixed-point integers: opacity thresholds and LOD fractions in
//! thousandths, aspect-ratio limits in tenths.
use vstd::prelude::*;
use crate::text::{lit, append_str, str_eq};

verus! {

/// One optimization pass.
#[derive(Debug, Clone, Copy, PartialEq, Eq, Structural)]
pub enum PassKind {
    RemoveInvalidSplats,
    /// Parameter: opacity threshold in thousandths.
    OpacityPrune,
    /// Parameter: largest allowed scale ratio in tenths.
    AspectRatioPrune,
    FloaterPrune,
    /// Parameter: bits per position component.
    QuantizePosition,
    /// Parameter: bits per scale component.
    QuantizeScale,
    /// Parameter: bits per rotation component.
    QuantizeRotation,
    /// Parameter: the SH degree kept.
    ReduceSHDegree,
    MortonSort,
    /// Levels: the splat fraction of each LOD level in thousandths.
    BuildLOD,
    BackgroundOverdrawPrune,
}

/// A pass with its parameter (0 for passes that take none) and, for LOD
/// building, its level fractions.
#[derive(Debug, Clone)]
pub struct PassSpec {
    pub kind: PassKind,
    pub param: u32,
    pub levels: Vec<u32>,
}

/// A pass as plain values.
pub open spec fn pass_model(p: PassSpec) -> (PassKind, u32, Seq<u32>) {
    (p.kind, p.param, p.levels@)
}

/// Shorthand for a pass without LOD levels.
pub open spec fn step(kind: PassKind, param: u32) -> (PassKind, u32, Seq<u32>) {
    (kind, param, Seq::empty())
}

/// The common web pipeline: invalid-splat removal, opacity prune, optional
/// aspect-ratio prune, optional floater prune, quantization, SH reduction,
/// Morton order, and optional LOD levels.
pub open spec fn web_pipeline(
    opacity: u32,
    aspect: Option<u32>,
    floaters: bool,
    bits: (u32, u32, u32),
    degree: u32,
    lods: Seq<u32>,
) -> Seq<(PassKind, u32, Seq<u32>)> {
    let head = seq![step(PassKind::RemoveInvalidSplats, 0), step(PassKind::OpacityPrune, opacity)];
    let a = match aspect {
        Some(r) => head.push(step(PassKind::AspectRatioPrune, r)),
        None => head,
    };
    let f = if floaters {
        a.push(step(PassKind::FloaterPrune, 0))
    } else {
        a
    };
    let q = f + seq![
        step(PassKind::QuantizePosition, bits.0),
        step(PassKind::QuantizeScale, bits.1),
        step(PassKind::QuantizeRotation, bits.2),
        step(PassKind::ReduceSHDegree, degree),
        step(PassKind::MortonSort, 0),
    ];
    if lods.len() > 0 {
        q.push((PassKind::BuildLOD, 0, lods))
    } else {
        q
    }
}

/// The passes of each named preset; `None` for an unknown name.
pub open spec fn preset_table(name: Seq<char>) -> Option<Seq<(PassKind, u32, Seq<u32>)>> {
    if name == "lossless-repack"@ || name == "quality-max"@ {
        Some(seq![step(PassKind::RemoveInvalidSplats, 0), step(PassKind::MortonSort, 0)])
    } else if name == "web-mobile"@ {
        Some(web_pipeline(20, Some(100), true, (15, 12, 12), 0, seq![500, 250]))
    } else if name == "web-desktop"@ {
        Some(web_pipeline(10, Some(100), true, (16, 12, 12), 1, Seq::empty()))
    } else if name == "quest-browser"@ {
        Some(web_pipeline(30, Some(100), true, (14, 12, 12), 0, seq![300]))
    } else if name == "visionos-preview"@ {
        Some(web_pipeline(20, None, false, (15, 8, 8), 0, Seq::empty()))
    } else if name == "thumbnail-preview"@ {
        Some(web_pipeline(50, Some(100), true, (12, 12, 12), 0, Seq::empty()))
    } else if name == "geospatial"@ {
        Some(web_pipeline(20, None, true, (15, 8, 8), 0, seq![500, 250, 125]))
    } else if name == "size-min"@ {
        Some(web_pipeline(50, Some(100), true, (12, 12, 12), 0, seq![250, 100]))
    } else if name == "hero"@ {
        Some(
            seq![
                step(PassKind::RemoveInvalidSplats, 0),
                step(PassKind::FloaterPrune, 0),
                step(PassKind::QuantizePosition, 16),
                step(PassKind::QuantizeScale, 16),
                step(PassKind::QuantizeRotation, 16),
                step(PassKind::ReduceSHDegree, 0),
                step(PassKind::MortonSort, 0),
            ],
        )
    } else if name == "hero-quality"@ {
        Some(
            seq![
                step(PassKind::RemoveInvalidSplats, 0),
                step(PassKind::OpacityPrune, 40),
                step(PassKind::FloaterPrune, 0),
                step(PassKind::AspectRatioPrune, 80),
                step(PassKind::BackgroundOverdrawPrune, 0),
                step(PassKind::QuantizePosition, 14),
                step(PassKind::QuantizeScale, 12),
                step(PassKind::QuantizeRotation, 12),
                step(PassKind::ReduceSHDegree, 1),
                step(PassKind::MortonSort, 0),
            ],
        )
    } else {
        None
    }
}

/// The names of all built-in presets.
pub open spec fn preset_names_spec() -> Seq<Seq<char>> {
    seq![
        "lossless-repack"@,
        "web-mobile"@,
        "web-desktop"@,
        "quest-browser"@,
        "visionos-preview"@,
        "thumbnail-preview"@,
        "quality-max"@,
        "size-min"@,
        "geospatial"@,
        "hero"@,
        "hero-quality"@,
    ]
}

/// The names of all built-in presets, in catalog order.
pub fn preset_names() -> (r: Vec<String>)
    ensures
        r@.map_values(|s: String| s@) == preset_names_spec(),
{
    let mut v: Vec<String> = Vec::new();
    v.push(lit("lossless-repack"));
    v.push(lit("web-mobile"));
    v.push(lit("web-desktop"));
    v.push(lit("quest-browser"));
    v.push(lit("visionos-preview"));
    v.push(lit("thumbnail-preview"));
    v.push(lit("quality-max"));
    v.push(lit("size-min"));
    v.push(lit("geospatial"));
    v.push(lit("hero"));
    v.push(lit("hero-quality"));
    assert(v@.map_values(|s: String| s@) =~= preset_names_spec());
    v
}

fn pass(kind: PassKind, param: u32) -> (r: PassSpec)
    ensures
        pass_model(r) == step(kind, param),
{
    PassSpec { kind, param, levels: Vec::new() }
}

fn web(
    opacity: u32,
    aspect: Option<u32>,
    floaters: bool,
    bits: (u32, u32, u32),
    degree: u32,
    lods: Vec<u32>,
) -> (r: Vec<PassSpec>)
    ensures
        r@.map_values(|p: PassSpec| pass_model(p)) == web_pipeline(opacity, aspect, floaters, bits, degree, lods@),
{
    let ghost lv = lods@;
    let mut v: Vec<PassSpec> = Vec::new();
    v.push(pass(PassKind::RemoveInvalidSplats, 0));
    v.push(pass(PassKind::OpacityPrune, opacity));
    match aspect {
        Some(r) => v.push(pass(PassKind::AspectRatioPrune, r)),
        None => {},
    }
    if floaters {
        v.push(pass(PassKind::FloaterPrune, 0));
    }
    v.push(pass(PassKind::QuantizePosition, bits.0));
    v.push(pass(PassKind::QuantizeScale, bits.1));
    v.push(pass(PassKind::QuantizeRotation, bits.2));
    v.push(pass(PassKind::ReduceSHDegree, degree));
    v.push(pass(PassKind::MortonSort, 0));
    if lods.len() > 0 {
        v.push(PassSpec { kind: PassKind::BuildLOD, param: 0, levels: lods });
    }
    assert(v@.map_values(|p: PassSpec| pass_model(p)) =~= web_pipeline(opacity, aspect, floaters, bits, degree, lv));
    v
}

/// LOD fractions, in thousandths.
fn lods(a: u32, b: Option<u32>, c: Option<u32>) -> (r: Vec<u32>)
    ensures
        r@ == seq![a] + match b {
            Some(x) => seq![x],
            None => Seq::empty(),
        } + match c {
            Some(x) => seq![x],
            None => Seq::empty(),
        },
{
    let mut v: Vec<u32> = Vec::new();
    v.push(a);
    if let Some(x) = b {
        v.push(x);
    }
    if let Some(x) = c {
        v.push(x);
    }
    assert(v@ =~= seq![a] + match b {
        Some(x) => seq![x],
        None => Seq::empty(),
    } + match c {
        Some(x) => seq![x],
        None => Seq::empty(),
    });
    v
}

/// The message for an unknown preset name.
pub open spec fn unknown_preset_message(name: Seq<char>) -> Seq<char> {
    "unknown preset '"@ + name + "'"@
}

/// The passes of the named preset, in order, or an error for an unknown
/// name.
pub fn preset_passes(name: &str) -> (r: Result<Vec<PassSpec>, String>)
    ensures
        match preset_table(name@) {
            Some(t) => r matches Ok(v) && v@.map_values(|p: PassSpec| pass_model(p)) == t,
            None => r matches Err(m) && m@ == unknown_preset_message(name@),
        },
{
    if str_eq(name, "lossless-repack") || str_eq(name, "quality-max") {
        let mut v: Vec<PassSpec> = Vec::new();
        v.push(pass(PassKind::RemoveInvalidSplats, 0));
        v.push(pass(PassKind::MortonSort, 0));
        assert(v@.map_values(|p: PassSpec| pass_model(p)) =~= seq![
            step(PassKind::RemoveInvalidSplats, 0),
            step(PassKind::MortonSort, 0),
        ]);
        Ok(v)
    } else if str_eq(name, "web-mobile") {
        let l = lods(500, Some(250), None);
        assert(l@ =~= seq![500u32, 250]);
        Ok(web(20, Some(100), true, (15, 12, 12), 0, l))
    } else if str_eq(name, "web-desktop") {
        let l: Vec<u32> = Vec::new();
        assert(l@ =~= Seq::<u32>::empty());
        Ok(web(10, Some(100), true, (16, 12, 12), 1, l))
    } else if str_eq(name, "quest-browser") {
        let l = lods(300, None, None);
        assert(l@ =~= seq![300u32]);
        Ok(web(30, Some(100), true, (14, 12, 12), 0, l))
    } else if str_eq(name, "visionos-preview") {
        let l: Vec<u32> = Vec::new();
        assert(l@ =~= Seq::<u32>::empty());
        Ok(web(20, None, false, (15, 8, 8), 0, l))
    } else if str_eq(name, "thumbnail-preview") {
        let l: Vec<u32> = Vec::new();
        assert(l@ =~= Seq::<u32>::empty());
        Ok(web(50, Some(100), true, (12, 12, 12), 0, l))
    } else if str_eq(name, "geospatial") {
        let l = lods(500, Some(250), Some(125));
        assert(l@ =~= seq![500u32, 250, 125]);
        Ok(web(20, None, true, (15, 8, 8), 0, l))
    } else if str_eq(name, "size-min") {
        let l = lods(250, Some(100), None);
        assert(l@ =~= seq![250u32, 100]);
        Ok(web(50, Some(100), true, (12, 12, 12), 0, l))
    } else if str_eq(name, "hero") {
        let mut v: Vec<PassSpec> = Vec::new();
        v.push(pass(PassKind::RemoveInvalidSplats, 0));
        v.push(pass(PassKind::FloaterPrune, 0));
        v.push(pass(PassKind::QuantizePosition, 16));
        v.push(pass(PassKind::QuantizeScale, 16));
        v.push(pass(PassKind::QuantizeRotation, 16));
        v.push(pass(PassKind::ReduceSHDegree, 0));
        v.push(pass(PassKind::MortonSort, 0));
        proof {
            let t = preset_table(name@).unwrap();
            assert(v@.map_values(|p: PassSpec| pass_model(p)) =~= t);
        }
        Ok(v)
    } else if str_eq(name, "hero-quality") {
        let mut v: Vec<PassSpec> = Vec::new();
        v.push(pass(PassKind::RemoveInvalidSplats, 0));
        v.push(pass(PassKind::OpacityPrune, 40));
        v.push(pass(PassKind::FloaterPrune, 0));
        v.push(pass(PassKind::AspectRatioPrune, 80));
        v.push(pass(PassKind::BackgroundOverdrawPrune, 0));
        v.push(pass(PassKind::QuantizePosition, 14));
        v.push(pass(PassKind::QuantizeScale, 12));
        v.push(pass(PassKind::QuantizeRotation, 12));
        v.push(pass(PassKind::ReduceSHDegree, 1));
        v.push(pass(PassKind::MortonSort, 0));
        proof {
            let t = preset_table(name@).unwrap();
            assert(v@.map_values(|p: PassSpec| pass_model(p)) =~= t);
        }
        Ok(v)
    } else {
        let mut m = lit("unknown preset '");
        append_str(&mut m, name);
        append_str(&mut m, "'");
        Err(m)
    }
}

/// Every catalog name is a preset, and every preset name is in the catalog.
pub proof fn lemma_catalog_matches_table(name: Seq<char>)
    ensures
        preset_names_spec().contains(name) <==> preset_table(name) is Some,
{
    if preset_table(name) is Some {
        if name == "lossless-repack"@ {
            assert(preset_names_spec()[0] == name);
        } else if name == "quality-max"@ {
            assert(preset_names_spec()[6] == name);
        } else if name == "web-mobile"@ {
            assert(preset_names_spec()[1] == name);
        } else if name == "web-desktop"@ {
            assert(preset_names_spec()[2] == name);
        } else if name == "quest-browser"@ {
            assert(preset_names_spec()[3] == name);
        } else if name == "visionos-preview"@ {
            assert(preset_names_spec()[4] == name);
        } else if name == "thumbnail-preview"@ {
            assert(preset_names_spec()[5] == name);
        } else if name == "geospatial"@ {
            assert(preset_names_spec()[8] == name);
        } else if name == "size-min"@ {
            assert(preset_names_spec()[7] == name);
        } else if name == "hero"@ {
            assert(preset_names_spec()[9] == name);
        } else {
            assert(preset_names_spec()[10] == name);
        }
    }
}


/// The SH degree a preset's `ReduceSHDegree` pass keeps: 1 for
/// `web-desktop` and `hero-quality`, 0 for every other preset.
pub open spec fn sh_target_of(name: Seq<char>) -> u32 {
    if name == "web-desktop"@ || name == "hero-quality"@ {
        1
    } else {
        0
    }
}

/// The shape of a web pipeline: after the `b` pruning passes come
/// position, scale and rotation quantization, then the one SH reduction,
/// Morton order and the optional LOD pass.
proof fn lemma_web_pipeline_shape(
    opacity: u32,
    aspect: Option<u32>,
    floaters: bool,
    bits: (u32, u32, u32),
    degree: u32,
    lods: Seq<u32>,
)
    ensures
        ({
            let p = web_pipeline(opacity, aspect, floaters, bits, degree, lods);
            let b = 2 + (if aspect is Some { 1int } else { 0int }) + (if floaters { 1int } else { 0int });
            &&& p.len() == b + 5 + (if lods.len() > 0 { 1int } else { 0int })
            &&& p[1] == step(PassKind::OpacityPrune, opacity)
            &&& p[b] == step(PassKind::QuantizePosition, bits.0)
            &&& p[b + 3] == step(PassKind::ReduceSHDegree, degree)
            &&& forall|i: int| 0 <= i < p.len() && (#[trigger] p[i]).0 == PassKind::ReduceSHDegree ==> i == b + 3
        }),
{
    let p = web_pipeline(opacity, aspect, floaters, bits, degree, lods);
    let b = 2 + (if aspect is Some { 1int } else { 0int }) + (if floaters { 1int } else { 0int });
    let head = seq![step(PassKind::RemoveInvalidSplats, 0), step(PassKind::OpacityPrune, opacity)];
    let a = match aspect {
        Some(r) => head.push(step(PassKind::AspectRatioPrune, r)),
        None => head,
    };
    let f = if floaters {
        a.push(step(PassKind::FloaterPrune, 0))
    } else {
        a
    };
    let tail = seq![
        step(PassKind::QuantizePosition, bits.0),
        step(PassKind::QuantizeScale, bits.1),
        step(PassKind::QuantizeRotation, bits.2),
        step(PassKind::ReduceSHDegree, degree),
        step(PassKind::MortonSort, 0),
    ];
    let q = f + tail;
    assert(f.len() == b);
    assert forall|i: int| 0 <= i < f.len() implies (#[trigger] f[i]).0 != PassKind::ReduceSHDegree by {
        if i < 2 {
            assert(f[i] == head[i]);
        } else if i == 2 && aspect is Some {
            assert(f[i] == a[i]);
        }
    }
    assert forall|i: int| 0 <= i < q.len() && (#[trigger] q[i]).0 == PassKind::ReduceSHDegree implies i == b + 3 by {
        if i < b {
            assert(q[i] == f[i]);
        } else {
            assert(q[i] == tail[i - b]);
        }
    }
    assert(q[1] == f[1]);
    assert(f[1] == head[1]);
    assert(q[b] == tail[0]);
    assert(q[b + 3] == tail[3]);
    if lods.len() > 0 {
        let r = q.push((PassKind::BuildLOD, 0, lods));
        assert forall|i: int| 0 <= i < r.len() && (#[trigger] r[i]).0 == PassKind::ReduceSHDegree implies i == b + 3 by {
            if i < q.len() {
                assert(r[i] == q[i]);
            }
        }
    }
}

/// Every preset but the lossless ones reduces the SH degree, and each
/// preset keeps the degree `sh_target_of` gives: view-dependent color
/// (degree 1) survives only the desktop and hero-quality pipelines.
pub proof fn lemma_preset_sh_targets(name: Seq<char>)
    ensures
        preset_table(name) matches Some(p) ==> forall|i: int|
            0 <= i < p.len() && (#[trigger] p[i]).0 == PassKind::ReduceSHDegree ==> p[i].1 == sh_target_of(name),
        preset_table(name) matches Some(p) ==> (name != "lossless-repack"@ && name != "quality-max"@ ==> exists|i: int|
            0 <= i < p.len() && (#[trigger] p[i]).0 == PassKind::ReduceSHDegree),
{
    reveal_strlit("lossless-repack");
    reveal_strlit("quality-max");
    reveal_strlit("web-mobile");
    reveal_strlit("web-desktop");
    reveal_strlit("quest-browser");
    reveal_strlit("visionos-preview");
    reveal_strlit("thumbnail-preview");
    reveal_strlit("geospatial");
    reveal_strlit("size-min");
    reveal_strlit("hero");
    reveal_strlit("hero-quality");
    if name == "lossless-repack"@ {
        assert("lossless-repack"@[0] != "quality-max"@[0]);
        assert(name != "quality-max"@);
        assert("lossless-repack"@[0] != "web-mobile"@[0]);
        assert(name != "web-mobile"@);
        assert("lossless-repack"@[0] != "web-desktop"@[0]);
        assert(name != "web-desktop"@);
        assert("lossless-repack"@[0] != "quest-browser"@[0]);
        assert(name != "quest-browser"@);
        assert("lossless-repack"@[0] != "visionos-preview"@[0]);
        assert(name != "visionos-preview"@);
        assert("lossless-repack"@[0] != "thumbnail-preview"@[0]);
        assert(name != "thumbnail-preview"@);
        assert("lossless-repack"@[0] != "geospatial"@[0]);
        assert(name != "geospatial"@);
        assert("lossless-repack"@[0] != "size-min"@[0]);
        assert(name != "size-min"@);
        assert("lossless-repack"@[0] != "hero"@[0]);
        assert(name != "hero"@);
        assert("lossless-repack"@[0] != "hero-quality"@[0]);
        assert(name != "hero-quality"@);
        let p = preset_table(name)->0;
        assert(p.len() == 2);
        assert(p[0].0 != PassKind::ReduceSHDegree && p[1].0 != PassKind::ReduceSHDegree);
    } else if name == "quality-max"@ {
        assert("quality-max"@[0] != "lossless-repack"@[0]);
        assert(name != "lossless-repack"@);
        assert("quality-max"@[0] != "web-mobile"@[0]);
        assert(name != "web-mobile"@);
        assert("quality-max"@[0] != "web-desktop"@[0]);
        assert(name != "web-desktop"@);
        assert("quality-max"@[2] != "quest-browser"@[2]);
        assert(name != "quest-browser"@);
        assert("quality-max"@[0] != "visionos-preview"@[0]);
        assert(name != "visionos-preview"@);
        assert("quality-max"@[0] != "thumbnail-preview"@[0]);
        assert(name != "thumbnail-preview"@);
        assert("quality-max"@[0] != "geospatial"@[0]);
        assert(name != "geospatial"@);
        assert("quality-max"@[0] != "size-min"@[0]);
        assert(name != "size-min"@);
        assert("quality-max"@[0] != "hero"@[0]);
        assert(name != "hero"@);
        assert("quality-max"@[0] != "hero-quality"@[0]);
        assert(name != "hero-quality"@);
        let p = preset_table(name)->0;
        assert(p.len() == 2);
        assert(p[0].0 != PassKind::ReduceSHDegree && p[1].0 != PassKind::ReduceSHDegree);
    } else if name == "web-mobile"@ {
        assert("web-mobile"@[0] != "lossless-repack"@[0]);
        assert(name != "lossless-repack"@);
        assert("web-mobile"@[0] != "quality-max"@[0]);
        assert(name != "quality-max"@);
        assert("web-mobile"@[4] != "web-desktop"@[4]);
        assert(name != "web-desktop"@);
        assert("web-mobile"@[0] != "quest-browser"@[0]);
        assert(name != "quest-browser"@);
        assert("web-mobile"@[0] != "visionos-preview"@[0]);
        assert(name != "visionos-preview"@);
        assert("web-mobile"@[0] != "thumbnail-preview"@[0]);
        assert(name != "thumbnail-preview"@);
        assert("web-mobile"@[0] != "geospatial"@[0]);
        assert(name != "geospatial"@);
        assert("web-mobile"@[0] != "size-min"@[0]);
        assert(name != "size-min"@);
        assert("web-mobile"@[0] != "hero"@[0]);
        assert(name != "hero"@);
        assert("web-mobile"@[0] != "hero-quality"@[0]);
        assert(name != "hero-quality"@);
        lemma_web_pipeline_shape(20, Some(100), true, (15, 12, 12), 0, seq![500, 250]);
        assert(preset_table(name) == Some(web_pipeline(20, Some(100), true, (15, 12, 12), 0, seq![500, 250])));
    } else if name == "web-desktop"@ {
        assert("web-desktop"@[0] != "lossless-repack"@[0]);
        assert(name != "lossless-repack"@);
        assert("web-desktop"@[0] != "quality-max"@[0]);
        assert(name != "quality-max"@);
        assert("web-desktop"@[4] != "web-mobile"@[4]);
        assert(name != "web-mobile"@);
        assert("web-desktop"@[0] != "quest-browser"@[0]);
        assert(name != "quest-browser"@);
        assert("web-desktop"@[0] != "visionos-preview"@[0]);
        assert(name != "visionos-preview"@);
        assert("web-desktop"@[0] != "thumbnail-preview"@[0]);
        assert(name != "thumbnail-preview"@);
        assert("web-desktop"@[0] != "geospatial"@[0]);
        assert(name != "geospatial"@);
        assert("web-desktop"@[0] != "size-min"@[0]);
        assert(name != "size-min"@);
        assert("web-desktop"@[0] != "hero"@[0]);
        assert(name != "hero"@);
        assert("web-desktop"@[0] != "hero-quality"@[0]);
        assert(name != "hero-quality"@);
        lemma_web_pipeline_shape(10, Some(100), true, (16, 12, 12), 1, Seq::empty());
        assert(preset_table(name) == Some(web_pipeline(10, Some(100), true, (16, 12, 12), 1, Seq::empty())));
    } else if name == "quest-browser"@ {
        assert("quest-browser"@[0] != "lossless-repack"@[0]);
        assert(name != "lossless-repack"@);
        assert("quest-browser"@[2] != "quality-max"@[2]);
        assert(name != "quality-max"@);
        assert("quest-browser"@[0] != "web-mobile"@[0]);
        assert(name != "web-mobile"@);
        assert("quest-browser"@[0] != "web-desktop"@[0]);
        assert(name != "web-desktop"@);
        assert("quest-browser"@[0] != "visionos-preview"@[0]);
        assert(name != "visionos-preview"@);
        assert("quest-browser"@[0] != "thumbnail-preview"@[0]);
        assert(name != "thumbnail-preview"@);
        assert("quest-browser"@[0] != "geospatial"@[0]);
        assert(name != "geospatial"@);
        assert("quest-browser"@[0] != "size-min"@[0]);
        assert(name != "size-min"@);
        assert("quest-browser"@[0] != "hero"@[0]);
        assert(name != "hero"@);
        assert("quest-browser"@[0] != "hero-quality"@[0]);
        assert(name != "hero-quality"@);
        lemma_web_pipeline_shape(30, Some(100), true, (14, 12, 12), 0, seq![300]);
        assert(preset_table(name) == Some(web_pipeline(30, Some(100), true, (14, 12, 12), 0, seq![300])));
    } else if name == "visionos-preview"@ {
        assert("visionos-preview"@[0] != "lossless-repack"@[0]);
        assert(name != "lossless-repack"@);
        assert("visionos-preview"@[0] != "quality-max"@[0]);
        assert(name != "quality-max"@);
        assert("visionos-preview"@[0] != "web-mobile"@[0]);
        assert(name != "web-mobile"@);
        assert("visionos-preview"@[0] != "web-desktop"@[0]);
        assert(name != "web-desktop"@);
        assert("visionos-preview"@[0] != "quest-browser"@[0]);
        assert(name != "quest-browser"@);
        assert("visionos-preview"@[0] != "thumbnail-preview"@[0]);
        assert(name != "thumbnail-preview"@);
        assert("visionos-preview"@[0] != "geospatial"@[0]);
        assert(name != "geospatial"@);
        assert("visionos-preview"@[0] != "size-min"@[0]);
        assert(name != "size-min"@);
        assert("visionos-preview"@[0] != "hero"@[0]);
        assert(name != "hero"@);
        assert("visionos-preview"@[0] != "hero-quality"@[0]);
        assert(name != "hero-quality"@);
        lemma_web_pipeline_shape(20, None, false, (15, 8, 8), 0, Seq::empty());
        assert(preset_table(name) == Some(web_pipeline(20, None, false, (15, 8, 8), 0, Seq::empty())));
    } else if name == "thumbnail-preview"@ {
        assert("thumbnail-preview"@[0] != "lossless-repack"@[0]);
        assert(name != "lossless-repack"@);
        assert("thumbnail-preview"@[0] != "quality-max"@[0]);
        assert(name != "quality-max"@);
        assert("thumbnail-preview"@[0] != "web-mobile"@[0]);
        assert(name != "web-mobile"@);
        assert("thumbnail-preview"@[0] != "web-desktop"@[0]);
        assert(name != "web-desktop"@);
        assert("thumbnail-preview"@[0] != "quest-browser"@[0]);
        assert(name != "quest-browser"@);
        assert("thumbnail-preview"@[0] != "visionos-preview"@[0]);
        assert(name != "visionos-preview"@);
        assert("thumbnail-preview"@[0] != "geospatial"@[0]);
        assert(name != "geospatial"@);
        assert("thumbnail-preview"@[0] != "size-min"@[0]);
        assert(name != "size-min"@);
        assert("thumbnail-preview"@[0] != "hero"@[0]);
        assert(name != "hero"@);
        assert("thumbnail-preview"@[0] != "hero-quality"@[0]);
        assert(name != "hero-quality"@);
        lemma_web_pipeline_shape(50, Some(100), true, (12, 12, 12), 0, Seq::empty());
        assert(preset_table(name) == Some(web_pipeline(50, Some(100), true, (12, 12, 12), 0, Seq::empty())));
    } else if name == "geospatial"@ {
        assert("geospatial"@[0] != "lossless-repack"@[0]);
        assert(name != "lossless-repack"@);
        assert("geospatial"@[0] != "quality-max"@[0]);
        assert(name != "quality-max"@);
        assert("geospatial"@[0] != "web-mobile"@[0]);
        assert(name != "web-mobile"@);
        assert("geospatial"@[0] != "web-desktop"@[0]);
        assert(name != "web-desktop"@);
        assert("geospatial"@[0] != "quest-browser"@[0]);
        assert(name != "quest-browser"@);
        assert("geospatial"@[0] != "visionos-preview"@[0]);
        assert(name != "visionos-preview"@);
        assert("geospatial"@[0] != "thumbnail-preview"@[0]);
        assert(name != "thumbnail-preview"@);
        assert("geospatial"@[0] != "size-min"@[0]);
        assert(name != "size-min"@);
        assert("geospatial"@[0] != "hero"@[0]);
        assert(name != "hero"@);
        assert("geospatial"@[0] != "hero-quality"@[0]);
        assert(name != "hero-quality"@);
        lemma_web_pipeline_shape(20, None, true, (15, 8, 8), 0, seq![500, 250, 125]);
        assert(preset_table(name) == Some(web_pipeline(20, None, true, (15, 8, 8), 0, seq![500, 250, 125])));
    } else if name == "size-min"@ {
        assert("size-min"@[0] != "lossless-repack"@[0]);
        assert(name != "lossless-repack"@);
        assert("size-min"@[0] != "quality-max"@[0]);
        assert(name != "quality-max"@);
        assert("size-min"@[0] != "web-mobile"@[0]);
        assert(name != "web-mobile"@);
        assert("size-min"@[0] != "web-desktop"@[0]);
        assert(name != "web-desktop"@);
        assert("size-min"@[0] != "quest-browser"@[0]);
        assert(name != "quest-browser"@);
        assert("size-min"@[0] != "visionos-preview"@[0]);
        assert(name != "visionos-preview"@);
        assert("size-min"@[0] != "thumbnail-preview"@[0]);
        assert(name != "thumbnail-preview"@);
        assert("size-min"@[0] != "geospatial"@[0]);
        assert(name != "geospatial"@);
        assert("size-min"@[0] != "hero"@[0]);
        assert(name != "hero"@);
        assert("size-min"@[0] != "hero-quality"@[0]);
        assert(name != "hero-quality"@);
        lemma_web_pipeline_shape(50, Some(100), true, (12, 12, 12), 0, seq![250, 100]);
        assert(preset_table(name) == Some(web_pipeline(50, Some(100), true, (12, 12, 12), 0, seq![250, 100])));
    } else if name == "hero"@ {
        assert("hero"@[0] != "lossless-repack"@[0]);
        assert(name != "lossless-repack"@);
        assert("hero"@[0] != "quality-max"@[0]);
        assert(name != "quality-max"@);
        assert("hero"@[0] != "web-mobile"@[0]);
        assert(name != "web-mobile"@);
        assert("hero"@[0] != "web-desktop"@[0]);
        assert(name != "web-desktop"@);
        assert("hero"@[0] != "quest-browser"@[0]);
        assert(name != "quest-browser"@);
        assert("hero"@[0] != "visionos-preview"@[0]);
        assert(name != "visionos-preview"@);
        assert("hero"@[0] != "thumbnail-preview"@[0]);
        assert(name != "thumbnail-preview"@);
        assert("hero"@[0] != "geospatial"@[0]);
        assert(name != "geospatial"@);
        assert("hero"@[0] != "size-min"@[0]);
        assert(name != "size-min"@);
        assert("hero"@.len() != "hero-quality"@.len());
        assert(name != "hero-quality"@);
        let p = preset_table(name)->0;
        assert(p.len() == 7);
        assert forall|i: int| 0 <= i < p.len() && (#[trigger] p[i]).0 == PassKind::ReduceSHDegree implies i == 5 by {
            if i == 0 {
            } else if i == 1 {
            } else if i == 2 {
            } else if i == 3 {
            } else if i == 4 {
            } else if i == 5 {
            } else if i == 6 {
            }
        }
        assert(p[5].0 == PassKind::ReduceSHDegree);
    } else if name == "hero-quality"@ {
        assert("hero-quality"@[0] != "lossless-repack"@[0]);
        assert(name != "lossless-repack"@);
        assert("hero-quality"@[0] != "quality-max"@[0]);
        assert(name != "quality-max"@);
        assert("hero-quality"@[0] != "web-mobile"@[0]);
        assert(name != "web-mobile"@);
        assert("hero-quality"@[0] != "web-desktop"@[0]);
        assert(name != "web-desktop"@);
        assert("hero-quality"@[0] != "quest-browser"@[0]);
        assert(name != "quest-browser"@);
        assert("hero-quality"@[0] != "visionos-preview"@[0]);
        assert(name != "visionos-preview"@);
        assert("hero-quality"@[0] != "thumbnail-preview"@[0]);
        assert(name != "thumbnail-preview"@);
        assert("hero-quality"@[0] != "geospatial"@[0]);
        assert(name != "geospatial"@);
        assert("hero-quality"@[0] != "size-min"@[0]);
        assert(name != "size-min"@);
        assert("hero-quality"@.len() != "hero"@.len());
        assert(name != "hero"@);
        let p = preset_table(name)->0;
        assert(p.len() == 10);
        assert forall|i: int| 0 <= i < p.len() && (#[trigger] p[i]).0 == PassKind::ReduceSHDegree implies i == 8 by {
            if i == 0 {
            } else if i == 1 {
            } else if i == 2 {
            } else if i == 3 {
            } else if i == 4 {
            } else if i == 5 {
            } else if i == 6 {
            } else if i == 7 {
            } else if i == 8 {
            } else if i == 9 {
            }
        }
        assert(p[8].0 == PassKind::ReduceSHDegree);
    }
}

/// The desktop web preset is the higher-fidelity sibling of the mobile
/// one: it prunes by a lower opacity threshold, keeps at least as many
/// position bits and at least the SH degree the mobile preset keeps.
pub proof fn lemma_desktop_keeps_more_than_mobile()
    ensures
        ({
            let d = preset_table("web-desktop"@)->0;
            let m = preset_table("web-mobile"@)->0;
            &&& preset_table("web-desktop"@) is Some && preset_table("web-mobile"@) is Some
            &&& d[1].0 == PassKind::OpacityPrune && m[1].0 == PassKind::OpacityPrune && d[1].1 < m[1].1
            &&& d[4].0 == PassKind::QuantizePosition && m[4].0 == PassKind::QuantizePosition && d[4].1 >= m[4].1
            &&& d[7].0 == PassKind::ReduceSHDegree && m[7].0 == PassKind::ReduceSHDegree && d[7].1 > m[7].1
        }),
{
    reveal_strlit("lossless-repack");
    reveal_strlit("quality-max");
    reveal_strlit("web-mobile");
    reveal_strlit("web-desktop");
    lemma_web_pipeline_shape(20, Some(100), true, (15, 12, 12), 0, seq![500, 250]);
    lemma_web_pipeline_shape(10, Some(100), true, (16, 12, 12), 1, Seq::empty());
    assert("web-mobile"@[0] != "lossless-repack"@[0]);
    assert("web-mobile"@[0] != "quality-max"@[0]);
    assert("web-desktop"@[0] != "lossless-repack"@[0]);
    assert("web-desktop"@[0] != "quality-max"@[0]);
    assert("web-desktop"@[4] != "web-mobile"@[4]);
    assert(preset_table("web-mobile"@) == Some(web_pipeline(20, Some(100), true, (15, 12, 12), 0, seq![500, 250])));
    assert(preset_table("web-desktop"@) == Some(web_pipeline(10, Some(100), true, (16, 12, 12), 1, Seq::empty())));
}
} // verus!
