//! Small pure pieces of the command-line front end: the license refresh
//! sidecar path and the human-readable remaining-validity string.
use vstd::prelude::*;
use crate::detect::{name_range, last_dot, name_range_exec, dot_after};
use crate::text::{str_chars, string_from_chars, lit, append_str, push_decimal, decimal, str_eq, debug_str, debug_quoted};

verus! {

/// `Path::with_extension` on a `/`-separated path: everything after the
/// file stem is replaced by `.` and the extension (nothing for an empty
/// extension); a path without a file name is returned unchanged.
pub open spec fn with_extension_of(p: Seq<char>, ext: Seq<char>) -> Seq<char> {
    match name_range(p, p.len() as int) {
        None => p,
        Some((s, e)) => {
            let k = last_dot(p, s, e);
            let stem_end = if k < 0 || k == s {
                e
            } else {
                k
            };
            p.subrange(0, stem_end) + if ext.len() == 0 {
                Seq::<char>::empty()
            } else {
                "."@ + ext
            }
        },
    }
}

/// The sidecar recording the last successful license refresh: the license
/// path with its extension replaced by `last_refresh`.
pub fn last_refresh_path(license_path: &str) -> (r: String)
    ensures
        r@ == with_extension_of(license_path@, "last_refresh"@),
{
    proof {
        reveal_strlit("last_refresh");
        reveal_strlit(".last_refresh");
        reveal_strlit(".");
    }
    let p = str_chars(license_path);
    match name_range_exec(&p, p.len()) {
        None => lit(license_path),
        Some((s, e)) => {
            let k1 = dot_after(&p, s, e);
            let stem_end = if k1 == 0 || k1 == s + 1 {
                e
            } else {
                k1 - 1
            };
            let mut head: Vec<char> = Vec::new();
            let mut i: usize = 0;
            while i < stem_end
                invariant
                    i <= stem_end <= p@.len(),
                    head@ == p@.subrange(0, i as int),
                decreases stem_end - i,
            {
                head.push(p[i]);
                assert(head@ =~= p@.subrange(0, i + 1));
                i += 1;
            }
            let mut out = string_from_chars(head.as_slice());
            append_str(&mut out, ".last_refresh");
            proof {
                assert(".last_refresh"@ =~= "."@ + "last_refresh"@);
            }
            out
        },
    }
}

/// Remaining license validity as `"<days>d <hours>h"`, or `"expired"` when
/// none is left.
pub open spec fn humanized(positive: bool, secs: int) -> Seq<char> {
    if !positive {
        "expired"@
    } else {
        decimal((secs / 86400) as nat) + "d "@ + decimal(((secs % 86400) / 3600) as nat) + "h"@
    }
}

/// Renders a remaining validity: `positive` says whether any time is left,
/// `total_secs` is the whole seconds of it.
pub fn humanize(positive: bool, total_secs: i64) -> (r: String)
    requires
        positive ==> total_secs >= 0,
    ensures
        r@ == humanized(positive, total_secs as int),
{
    proof {
        reveal_strlit("expired");
        reveal_strlit("d ");
        reveal_strlit("h");
    }
    if !positive {
        return lit("expired");
    }
    let days = total_secs / 86400;
    let hours = (total_secs % 86400) / 3600;
    let mut out = String::new();
    push_decimal(&mut out, days as u64);
    append_str(&mut out, "d ");
    push_decimal(&mut out, hours as u64);
    append_str(&mut out, "h");
    out
}

/// `s` without its trailing `/` characters.
pub open spec fn trim_slashes(s: Seq<char>) -> Seq<char>
    decreases s.len(),
{
    if s.len() > 0 && s.last() == '/' {
        trim_slashes(s.drop_last())
    } else {
        s
    }
}

/// The API base URL without trailing slashes.
pub fn api_base(url: &str) -> (r: String)
    ensures
        r@ == trim_slashes(url@),
{
    let cs = str_chars(url);
    let mut end = cs.len();
    assert(cs@.subrange(0, end as int) == cs@);
    while end > 0 && cs[end - 1] == '/'
        invariant
            end <= cs@.len(),
            trim_slashes(cs@) == trim_slashes(cs@.subrange(0, end as int)),
        decreases end,
    {
        proof {
            assert(cs@.subrange(0, end as int).drop_last() == cs@.subrange(0, end - 1));
        }
        end -= 1;
    }
    let mut head: Vec<char> = Vec::new();
    let mut i: usize = 0;
    while i < end
        invariant
            i <= end <= cs@.len(),
            head@ == cs@.subrange(0, i as int),
        decreases end - i,
    {
        head.push(cs[i]);
        assert(head@ =~= cs@.subrange(0, i + 1));
        i += 1;
    }
    proof {
        let t = cs@.subrange(0, end as int);
        assert(!(t.len() > 0 && t.last() == '/'));
        assert(trim_slashes(t) == t);
    }
    string_from_chars(head.as_slice())
}

/// What the submit loop does after one poll of a job.
#[derive(Debug, Clone)]
pub enum PollAction {
    /// The job finished; print the output URL.
    Done(String),
    /// The job finished without an output URL.
    MissingOutput,
    /// The job failed, with this message.
    Failed(String),
    /// Still running, in this status and phase; poll again.
    Wait { status: String, phase: String },
}

/// The view of an optional string, with a default.
pub open spec fn or_default(s: Option<&str>, d: Seq<char>) -> Seq<char> {
    match s {
        Some(v) => v@,
        None => d,
    }
}

/// The decision after a poll returned `status` (absent reads as
/// `"unknown"`), `output_url`, `error` and `phase`.
pub fn poll_decision(
    status: Option<&str>,
    output_url: Option<&str>,
    error: Option<&str>,
    phase: Option<&str>,
) -> (r: PollAction)
    ensures
        ({
            let st = or_default(status, "unknown"@);
            if st == "done"@ || st == "succeeded"@ {
                match output_url {
                    Some(u) => r matches PollAction::Done(v) && v@ == u@,
                    None => r is MissingOutput,
                }
            } else if st == "error"@ || st == "failed"@ {
                r matches PollAction::Failed(m) && m@ == "job failed: "@ + or_default(
                    error,
                    "worker returned error with no message"@,
                )
            } else {
                r matches PollAction::Wait { status: s2, phase: p2 } && s2@ == st && p2@ == or_default(phase, ""@)
            }
        }),
{
    proof {
        reveal_strlit("unknown");
        reveal_strlit("done");
        reveal_strlit("succeeded");
        reveal_strlit("error");
        reveal_strlit("failed");
        reveal_strlit("");
    }
    let st: &str = match status {
        Some(s) => s,
        None => "unknown",
    };
    if str_eq(st, "done") || str_eq(st, "succeeded") {
        match output_url {
            Some(u) => PollAction::Done(lit(u)),
            None => PollAction::MissingOutput,
        }
    } else if str_eq(st, "error") || str_eq(st, "failed") {
        let e: &str = match error {
            Some(e) => e,
            None => "worker returned error with no message",
        };
        let mut m = lit("job failed: ");
        append_str(&mut m, e);
        PollAction::Failed(m)
    } else {
        let ph: &str = match phase {
            Some(p) => p,
            None => "",
        };
        PollAction::Wait { status: lit(st), phase: lit(ph) }
    }
}

// ---------- optimize options ----------

/// Post-compression of an optimized asset.
#[derive(Debug, Clone, Copy, PartialEq, Eq, Structural)]
pub enum CompressMode {
    /// zstd-compressed buffer sidecars.
    Zstd,
    /// One SPZ blob under `KHR_gaussian_splatting_compression_spz`.
    Spz,
}

/// What `optimize` writes: a GLB or a glTF directory, how it compresses,
/// and whether attributes are integer-quantized.
#[derive(Debug, Clone, Copy)]
pub struct OptimizePlan {
    pub target_glb: bool,
    pub compress: Option<CompressMode>,
    pub quantize: bool,
}

/// The web-targeted presets that write `KHR_mesh_quantization` accessors.
pub open spec fn quantizing_preset(p: Seq<char>) -> bool {
    ||| p == "web-mobile"@
    ||| p == "web-desktop"@
    ||| p == "quest-browser"@
    ||| p == "visionos-preview"@
    ||| p == "thumbnail-preview"@
    ||| p == "size-min"@
    ||| p == "hosted-neural-outdoor"@
    ||| p == "mgs-balanced"@
    ||| p == "mgs-aggressive"@
    ||| p == "codec-gs"@
    ||| p == "codec-gs-extreme"@
    ||| p == "codec-gs-stacked"@
    ||| p == "codec-gs-mixed"@
    ||| p == "codec-gs-mixed-k5"@
}

/// Presets known by name whose encoder only runs in the hosted worker.
pub open spec fn pending_preset(p: Seq<char>) -> bool {
    p == "codec-gs-stacked"@ || p == "codec-gs-mixed"@ || p == "codec-gs-mixed-k5"@
}

/// The view of an optional argument.
pub open spec fn opt_arg(o: Option<&str>) -> Option<Seq<char>> {
    match o {
        Some(s) => Some(s@),
        None => None,
    }
}

/// `--target`: absent or `gltf` writes a glTF directory, `glb` a GLB.
pub open spec fn target_of(t: Option<Seq<char>>) -> Result<bool, Seq<char>> {
    match t {
        None => Ok(false),
        Some(v) => if v == "gltf"@ {
            Ok(false)
        } else if v == "glb"@ {
            Ok(true)
        } else {
            Err("unknown --target "@ + debug_quoted(v) + " (want gltf or glb)"@)
        },
    }
}

/// `--compress`: absent or `none`, `zstd` or `spz`.
pub open spec fn compress_of(c: Option<Seq<char>>) -> Result<Option<CompressMode>, Seq<char>> {
    match c {
        None => Ok(None),
        Some(v) => if v == "zstd"@ {
            Ok(Some(CompressMode::Zstd))
        } else if v == "spz"@ {
            Ok(Some(CompressMode::Spz))
        } else if v == "none"@ {
            Ok(None)
        } else {
            Err("unknown --compress "@ + debug_quoted(v) + " (want zstd or spz)"@)
        },
    }
}

/// The message for a preset whose encoder runs only in the hosted worker.
pub open spec fn pending_message(p: Seq<char>) -> Seq<char> {
    "preset '"@ + p
        + "' is known but the worker integration is pending \u{2014} submit the job through the hosted API to use it"@
}

/// The plan for `optimize`, or the message it stops with, checked in
/// order: `--out` with `--output-dir`, the target, the compression, SPZ
/// without GLB, `geospatial` without an output directory, hosted-only
/// presets, an output directory for another preset.
pub open spec fn optimize_plan(
    preset: Seq<char>,
    has_out: bool,
    has_output_dir: bool,
    compress: Option<Seq<char>>,
    target: Option<Seq<char>>,
) -> Result<(bool, Option<CompressMode>, bool), Seq<char>> {
    if has_out && has_output_dir {
        Err("--out and --output-dir are mutually exclusive"@)
    } else {
        match target_of(target) {
            Err(m) => Err(m),
            Ok(glb) => match compress_of(compress) {
                Err(m) => Err(m),
                Ok(mode) => if mode == Some(CompressMode::Spz) && !glb {
                    Err("--compress spz requires --target glb (the extension is glb-embedded)"@)
                } else if preset == "geospatial"@ && !has_output_dir {
                    Err("preset 'geospatial' requires --output-dir <DIR> (the Cesium tileset is multi-file)"@)
                } else if pending_preset(preset) {
                    Err(pending_message(preset))
                } else if preset != "geospatial"@ && has_output_dir {
                    Err("--output-dir is only supported with --preset geospatial"@)
                } else {
                    Ok((glb, mode, mode != Some(CompressMode::Spz) && quantizing_preset(preset)))
                },
            },
        }
    }
}

/// The view of a plan result.
pub open spec fn plan_view(r: Result<OptimizePlan, String>) -> Result<(bool, Option<CompressMode>, bool), Seq<char>> {
    match r {
        Ok(p) => Ok((p.target_glb, p.compress, p.quantize)),
        Err(m) => Err(m@),
    }
}

fn is_quantizing_preset(p: &str) -> (r: bool)
    ensures
        r == quantizing_preset(p@),
{
    str_eq(p, "web-mobile") || str_eq(p, "web-desktop") || str_eq(p, "quest-browser") || str_eq(
        p,
        "visionos-preview",
    ) || str_eq(p, "thumbnail-preview") || str_eq(p, "size-min") || str_eq(p, "hosted-neural-outdoor")
        || str_eq(p, "mgs-balanced") || str_eq(p, "mgs-aggressive") || str_eq(p, "codec-gs") || str_eq(
        p,
        "codec-gs-extreme",
    ) || str_eq(p, "codec-gs-stacked") || str_eq(p, "codec-gs-mixed") || str_eq(p, "codec-gs-mixed-k5")
}

/// Checks the options of `optimize` and decides what it writes.
pub fn plan_optimize(
    preset_name: &str,
    has_out: bool,
    has_output_dir: bool,
    compress: Option<&str>,
    target: Option<&str>,
) -> (r: Result<OptimizePlan, String>)
    ensures
        plan_view(r) == optimize_plan(preset_name@, has_out, has_output_dir, opt_arg(compress), opt_arg(target)),
{
    if has_out && has_output_dir {
        return Err(lit("--out and --output-dir are mutually exclusive"));
    }
    let target_glb = match target {
        None => false,
        Some(t) => {
            if str_eq(t, "gltf") {
                false
            } else if str_eq(t, "glb") {
                true
            } else {
                let mut m = lit("unknown --target ");
                let d = debug_str(t);
                append_str(&mut m, d.as_str());
                append_str(&mut m, " (want gltf or glb)");
                return Err(m);
            }
        },
    };
    let mode = match compress {
        None => None,
        Some(c) => {
            if str_eq(c, "zstd") {
                Some(CompressMode::Zstd)
            } else if str_eq(c, "spz") {
                Some(CompressMode::Spz)
            } else if str_eq(c, "none") {
                None
            } else {
                let mut m = lit("unknown --compress ");
                let d = debug_str(c);
                append_str(&mut m, d.as_str());
                append_str(&mut m, " (want zstd or spz)");
                return Err(m);
            }
        },
    };
    let spz = match mode {
        Some(CompressMode::Spz) => true,
        _ => false,
    };
    if spz && !target_glb {
        return Err(lit("--compress spz requires --target glb (the extension is glb-embedded)"));
    }
    let geo = str_eq(preset_name, "geospatial");
    if geo && !has_output_dir {
        return Err(lit("preset 'geospatial' requires --output-dir <DIR> (the Cesium tileset is multi-file)"));
    }
    if str_eq(preset_name, "codec-gs-stacked") || str_eq(preset_name, "codec-gs-mixed") || str_eq(
        preset_name,
        "codec-gs-mixed-k5",
    ) {
        let mut m = lit("preset '");
        append_str(&mut m, preset_name);
        append_str(
            &mut m,
            "' is known but the worker integration is pending \u{2014} submit the job through the hosted API to use it",
        );
        return Err(m);
    }
    if !geo && has_output_dir {
        return Err(lit("--output-dir is only supported with --preset geospatial"));
    }
    let quantize = !spz && is_quantizing_preset(preset_name);
    Ok(OptimizePlan { target_glb, compress: mode, quantize })
}

/// The file name an optimized asset gets when no `--out` is given.
pub fn default_output_ext(target_glb: bool) -> (r: String)
    ensures
        r@ == if target_glb {
            "optimized.glb"@
        } else {
            "optimized.gltf"@
        },
{
    if target_glb {
        lit("optimized.glb")
    } else {
        lit("optimized.gltf")
    }
}

} // verus!
