//! Request routing of the Model Context Protocol server: which handler a
//! JSON-RPC method reaches, which requests are answered, which tool a
//! `tools/call` names, and the check of a scene reference.
use vstd::prelude::*;
use crate::text::{lit, append_str, str_eq};

verus! {

/// JSON-RPC: the method does not exist.
pub const METHOD_NOT_FOUND: i64 = -32601;

/// JSON-RPC: invalid method parameters.
pub const INVALID_PARAMS: i64 = -32602;

/// Where a request goes.
#[derive(Debug, Clone)]
pub enum Route {
    /// Answer with the server capabilities.
    Initialize,
    /// A one-way acknowledgement: never answered.
    Acknowledge,
    /// Answer with the tool catalog.
    ToolsList,
    /// Run the named tool.
    ToolsCall(String),
    /// Answer with the resource catalog.
    ResourcesList,
    /// Read the named resource.
    ResourcesRead(String),
    /// Answer with an empty prompt list.
    PromptsList,
    /// Answer with an empty object.
    Ping,
    /// Answer with a JSON-RPC error.
    Fail { code: i64, message: String },
}

/// The route of a request with method `method`, whose parameters carry
/// the string `name` and `uri` (empty when absent).
pub open spec fn route_of(method: Seq<char>, name: Seq<char>, uri: Seq<char>) -> Route {
    if method == "initialize"@ {
        Route::Initialize
    } else if method == "notifications/initialized"@ {
        Route::Acknowledge
    } else if method == "tools/list"@ {
        Route::ToolsList
    } else if method == "tools/call"@ {
        if name.len() == 0 {
            Route::Fail { code: INVALID_PARAMS, message: arbitrary() }
        } else {
            Route::ToolsCall(arbitrary())
        }
    } else if method == "resources/list"@ {
        Route::ResourcesList
    } else if method == "resources/read"@ {
        if uri.len() == 0 {
            Route::Fail { code: INVALID_PARAMS, message: arbitrary() }
        } else {
            Route::ResourcesRead(arbitrary())
        }
    } else if method == "prompts/list"@ {
        Route::PromptsList
    } else if method == "ping"@ {
        Route::Ping
    } else {
        Route::Fail { code: METHOD_NOT_FOUND, message: arbitrary() }
    }
}

/// `r` is the route of the request: the same variant as `route_of`, the
/// same error code, and the carried name, URI or message.
pub open spec fn routes_as(r: Route, method: Seq<char>, name: Seq<char>, uri: Seq<char>) -> bool {
    match (r, route_of(method, name, uri)) {
        (Route::Initialize, Route::Initialize) => true,
        (Route::Acknowledge, Route::Acknowledge) => true,
        (Route::ToolsList, Route::ToolsList) => true,
        (Route::ToolsCall(n), Route::ToolsCall(_)) => n@ == name,
        (Route::ResourcesList, Route::ResourcesList) => true,
        (Route::ResourcesRead(u), Route::ResourcesRead(_)) => u@ == uri,
        (Route::PromptsList, Route::PromptsList) => true,
        (Route::Ping, Route::Ping) => true,
        (Route::Fail { code, message }, Route::Fail { code: c2, .. }) => code == c2 && message@ == if code
            == METHOD_NOT_FOUND {
            "method not found: "@ + method
        } else if method == "tools/call"@ {
            "tools/call requires `name`"@
        } else {
            "resources/read requires `uri`"@
        },
        _ => false,
    }
}

/// Routes a request by its method; `name` and `uri` are the string
/// parameters of the same names (empty when absent or not strings).
pub fn route_request(method: &str, name: &str, uri: &str) -> (r: Route)
    ensures
        routes_as(r, method@, name@, uri@),
{
    proof {
        reveal_strlit("initialize");
        reveal_strlit("notifications/initialized");
        reveal_strlit("tools/list");
        reveal_strlit("tools/call");
        reveal_strlit("resources/list");
        reveal_strlit("resources/read");
        reveal_strlit("prompts/list");
        reveal_strlit("ping");
    }
    if str_eq(method, "initialize") {
        Route::Initialize
    } else if str_eq(method, "notifications/initialized") {
        Route::Acknowledge
    } else if str_eq(method, "tools/list") {
        Route::ToolsList
    } else if str_eq(method, "tools/call") {
        if name.unicode_len() == 0 {
            Route::Fail { code: INVALID_PARAMS, message: lit("tools/call requires `name`") }
        } else {
            Route::ToolsCall(lit(name))
        }
    } else if str_eq(method, "resources/list") {
        Route::ResourcesList
    } else if str_eq(method, "resources/read") {
        if uri.unicode_len() == 0 {
            Route::Fail { code: INVALID_PARAMS, message: lit("resources/read requires `uri`") }
        } else {
            Route::ResourcesRead(lit(uri))
        }
    } else if str_eq(method, "prompts/list") {
        Route::PromptsList
    } else if str_eq(method, "ping") {
        Route::Ping
    } else {
        let mut m = lit("method not found: ");
        append_str(&mut m, method);
        proof {
            reveal_strlit("method not found: ");
        }
        Route::Fail { code: METHOD_NOT_FOUND, message: m }
    }
}

/// Whether a request is answered: notifications (no id) and the
/// initialized acknowledgement never are.
pub fn answers(route: &Route, has_id: bool) -> (r: bool)
    ensures
        r == (has_id && !(*route is Acknowledge)),
{
    match route {
        Route::Acknowledge => false,
        _ => has_id,
    }
}

/// The tools a `tools/call` can reach.
#[derive(Debug, Clone, Copy, PartialEq, Eq, Structural)]
pub enum ToolKind {
    Analyze,
    ListPresets,
    Optimize,
    GenerateLodPyramid,
    FindSimilarScenes,
    Unknown,
}

/// The tool a name selects.
pub open spec fn tool_of(name: Seq<char>) -> ToolKind {
    if name == "splatforge.analyze"@ {
        ToolKind::Analyze
    } else if name == "splatforge.list_presets"@ {
        ToolKind::ListPresets
    } else if name == "splatforge.optimize"@ {
        ToolKind::Optimize
    } else if name == "splatforge.generate_lod_pyramid"@ {
        ToolKind::GenerateLodPyramid
    } else if name == "splatforge.find_similar_scenes"@ {
        ToolKind::FindSimilarScenes
    } else {
        ToolKind::Unknown
    }
}

/// The tool a `tools/call` name selects.
pub fn tool_for(name: &str) -> (r: ToolKind)
    ensures
        r == tool_of(name@),
{
    proof {
        reveal_strlit("splatforge.analyze");
        reveal_strlit("splatforge.list_presets");
        reveal_strlit("splatforge.optimize");
        reveal_strlit("splatforge.generate_lod_pyramid");
        reveal_strlit("splatforge.find_similar_scenes");
    }
    if str_eq(name, "splatforge.analyze") {
        ToolKind::Analyze
    } else if str_eq(name, "splatforge.list_presets") {
        ToolKind::ListPresets
    } else if str_eq(name, "splatforge.optimize") {
        ToolKind::Optimize
    } else if str_eq(name, "splatforge.generate_lod_pyramid") {
        ToolKind::GenerateLodPyramid
    } else if str_eq(name, "splatforge.find_similar_scenes") {
        ToolKind::FindSimilarScenes
    } else {
        ToolKind::Unknown
    }
}

/// `"unknown tool: <name>"`.
pub fn unknown_tool_message(name: &str) -> (r: String)
    ensures
        r@ == "unknown tool: "@ + name@,
{
    let mut m = lit("unknown tool: ");
    append_str(&mut m, name);
    m
}

/// The message for a scene reference of another kind than `path`.
pub open spec fn other_kind_message(kind: Seq<char>) -> Seq<char> {
    "this MCP tier only supports input.kind = \"path\"; got \""@ + kind
        + "\". The url / blob_id / content_b64 forms require the authenticated tier."@
}

/// The file path of a scene reference: its `kind` must be `"path"` and it
/// must carry a `path` string.
pub fn splatref_path(kind: Option<&str>, path: Option<&str>) -> (r: Result<String, String>)
    ensures
        kind is None ==> (r matches Err(m) && m@ == "input.kind is required"@),
        kind is Some && kind->Some_0@ != "path"@ ==> (r matches Err(m) && m@ == other_kind_message(kind->Some_0@)),
        kind is Some && kind->Some_0@ == "path"@ ==> match path {
            None => r matches Err(m) && m@ == "input.path is required when kind=path"@,
            Some(p) => r matches Ok(s) && s@ == p@,
        },
{
    proof {
        reveal_strlit("path");
    }
    let k = match kind {
        Some(k) => k,
        None => {
            return Err(lit("input.kind is required"));
        },
    };
    if !str_eq(k, "path") {
        let mut m = lit("this MCP tier only supports input.kind = \"path\"; got \"");
        append_str(&mut m, k);
        append_str(&mut m, "\". The url / blob_id / content_b64 forms require the authenticated tier.");
        return Err(m);
    }
    match path {
        Some(p) => Ok(lit(p)),
        None => Err(lit("input.path is required when kind=path")),
    }
}

} // verus!
