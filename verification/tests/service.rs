use splatforge::cli::{api_base, default_output_ext, humanize, last_refresh_path, plan_optimize, poll_decision, CompressMode, PollAction};
use splatforge::mcp::{
    answers, route_request, splatref_path, tool_for, unknown_tool_message, Route, ToolKind, INVALID_PARAMS,
    METHOD_NOT_FOUND,
};

/// Splits a signed duration in seconds the way the license status does.
fn remaining(secs: i64) -> String {
    humanize(secs > 0, secs)
}

#[test]
fn humanize_handles_negative() {
    assert_eq!(remaining(-1), "expired");
}

#[test]
fn humanize_round_numbers() {
    assert_eq!(remaining(3 * 86_400 + 4 * 3_600), "3d 4h");
}

#[test]
fn humanize_zero_is_expired_and_minutes_are_dropped() {
    assert_eq!(remaining(0), "expired");
    assert_eq!(remaining(59), "0d 0h");
    assert_eq!(remaining(86_400 + 3_599), "1d 0h");
}

#[test]
fn last_refresh_sits_next_to_the_license() {
    assert_eq!(last_refresh_path("/home/u/.splatforge/license.lic"), "/home/u/.splatforge/license.last_refresh");
    assert_eq!(last_refresh_path("license"), "license.last_refresh");
    assert_eq!(last_refresh_path("a.b/c.tar.gz"), "a.b/c.tar.last_refresh");
    assert_eq!(last_refresh_path(".hidden"), ".hidden.last_refresh");
    assert_eq!(last_refresh_path("dir/x.lic/"), "dir/x.last_refresh");
    assert_eq!(last_refresh_path("/"), "/");
    assert_eq!(last_refresh_path("a/.."), "a/..");
}

#[test]
fn api_base_drops_trailing_slashes() {
    assert_eq!(api_base("https://api.example.com//"), "https://api.example.com");
    assert_eq!(api_base("http://x"), "http://x");
}

#[test]
fn poll_decisions() {
    assert!(matches!(poll_decision(Some("done"), Some("u"), None, None), PollAction::Done(u) if u == "u"));
    assert!(matches!(poll_decision(Some("succeeded"), None, None, None), PollAction::MissingOutput));
    assert!(matches!(poll_decision(Some("failed"), None, None, None),
        PollAction::Failed(m) if m == "job failed: worker returned error with no message"));
    assert!(matches!(poll_decision(Some("error"), None, Some("oom"), None), PollAction::Failed(m) if m == "job failed: oom"));
    assert!(matches!(poll_decision(None, None, None, Some("upload")),
        PollAction::Wait { status, phase } if status == "unknown" && phase == "upload"));
}

#[test]
fn unknown_method_returns_method_not_found() {
    match route_request("splatforge/teleport", "", "") {
        Route::Fail { code, message } => {
            assert_eq!(code, METHOD_NOT_FOUND);
            assert_eq!(message, "method not found: splatforge/teleport");
        }
        other => panic!("unexpected route {other:?}"),
    }
}

#[test]
fn notifications_dont_produce_responses() {
    let r = route_request("notifications/initialized", "", "");
    assert!(matches!(r, Route::Acknowledge));
    assert!(!answers(&r, false));
    assert!(!answers(&r, true));
    assert!(!answers(&Route::Ping, false));
    assert!(answers(&Route::Ping, true));
}

#[test]
fn tool_calls_need_a_name() {
    assert!(matches!(route_request("tools/call", "", ""), Route::Fail { code, .. } if code == INVALID_PARAMS));
    assert!(matches!(route_request("tools/call", "splatforge.analyze", ""), Route::ToolsCall(n) if n == "splatforge.analyze"));
    assert!(matches!(route_request("resources/read", "", "splatbench://v0"), Route::ResourcesRead(u) if u == "splatbench://v0"));
    assert!(matches!(route_request("initialize", "", ""), Route::Initialize));
}

#[test]
fn tools_are_selected_by_name() {
    assert_eq!(tool_for("splatforge.analyze"), ToolKind::Analyze);
    assert_eq!(tool_for("splatforge.list_presets"), ToolKind::ListPresets);
    assert_eq!(tool_for("splatforge.optimize"), ToolKind::Optimize);
    assert_eq!(tool_for("splatforge.teleport"), ToolKind::Unknown);
    assert_eq!(unknown_tool_message("x"), "unknown tool: x");
}

#[test]
fn analyze_rejects_non_path_splatref() {
    let err = splatref_path(Some("url"), None).unwrap_err();
    assert!(err.contains("only supports"));
    assert_eq!(splatref_path(Some("path"), Some("/tmp/a.ply")).unwrap(), "/tmp/a.ply");
    assert_eq!(splatref_path(None, None).unwrap_err(), "input.kind is required");
    assert_eq!(splatref_path(Some("path"), None).unwrap_err(), "input.path is required when kind=path");
}

#[test]
fn optimize_plan_quantizes_web_presets_only() {
    let p = plan_optimize("web-mobile", false, false, None, None).unwrap();
    assert!(!p.target_glb && p.quantize && p.compress.is_none());
    let p = plan_optimize("lossless-repack", false, false, None, Some("glb")).unwrap();
    assert!(p.target_glb && !p.quantize);
    let p = plan_optimize("web-mobile", true, false, Some("spz"), Some("glb")).unwrap();
    assert!(matches!(p.compress, Some(CompressMode::Spz)) && !p.quantize);
    let p = plan_optimize("size-min", false, false, Some("none"), Some("gltf")).unwrap();
    assert!(p.compress.is_none() && p.quantize);
    let p = plan_optimize("geospatial", false, true, Some("zstd"), None).unwrap();
    assert!(matches!(p.compress, Some(CompressMode::Zstd)) && !p.quantize);
}

#[test]
fn optimize_plan_rejects_bad_options() {
    let err = |r: Result<splatforge::cli::OptimizePlan, String>| r.unwrap_err();
    assert_eq!(err(plan_optimize("web-mobile", true, true, None, None)), "--out and --output-dir are mutually exclusive");
    assert_eq!(err(plan_optimize("web-mobile", false, false, None, Some("obj"))), "unknown --target \"obj\" (want gltf or glb)");
    assert_eq!(err(plan_optimize("web-mobile", false, false, Some("lz4"), None)), "unknown --compress \"lz4\" (want zstd or spz)");
    assert_eq!(
        err(plan_optimize("web-mobile", false, false, Some("spz"), None)),
        "--compress spz requires --target glb (the extension is glb-embedded)"
    );
    assert_eq!(
        err(plan_optimize("geospatial", false, false, None, None)),
        "preset 'geospatial' requires --output-dir <DIR> (the Cesium tileset is multi-file)"
    );
    assert_eq!(
        err(plan_optimize("codec-gs-mixed", false, false, None, None)),
        "preset 'codec-gs-mixed' is known but the worker integration is pending \u{2014} submit the job through the hosted API to use it"
    );
    assert_eq!(
        err(plan_optimize("web-mobile", false, true, None, None)),
        "--output-dir is only supported with --preset geospatial"
    );
    assert_eq!(default_output_ext(true), "optimized.glb");
    assert_eq!(default_output_ext(false), "optimized.gltf");
}
