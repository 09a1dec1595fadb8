//! Routing of JSON-RPC requests and the server's settings.
use crate::api::limits::text_eq;
use crate::mcp::protocol::RpcError;
use vstd::prelude::*;
use vstd::string::StringExecFns;

verus! {

/// What to do with one incoming request.
pub enum Route {
    /// Answer with the initialize result.
    Initialize,
    /// Answer with the tool catalogue.
    ListTools,
    /// Plan and run the named tool.
    CallTool(String),
    /// Answer with an empty object.
    Ping,
    /// Answer with this JSON-RPC error.
    Fail(RpcError),
}

/// `Route` with its texts as character sequences; an error by its code and
/// message.
pub enum RouteV {
    Initialize,
    ListTools,
    CallTool(Seq<char>),
    Ping,
    Fail(i32, Seq<char>),
}

impl View for Route {
    type V = RouteV;

    open spec fn view(&self) -> RouteV {
        match self {
            Route::Initialize => RouteV::Initialize,
            Route::ListTools => RouteV::ListTools,
            Route::CallTool(n) => RouteV::CallTool(n@),
            Route::Ping => RouteV::Ping,
            Route::Fail(e) => RouteV::Fail(e.code, e.message@),
        }
    }
}

/// The route of a message with an `id`, by its method; for `tools/call`,
/// `tool_name` is its `params.name` when that is a string.
pub open spec fn route_spec(method: Seq<char>, tool_name: Option<Seq<char>>) -> RouteV {
    if method == "initialize"@ {
        RouteV::Initialize
    } else if method == "tools/list"@ {
        RouteV::ListTools
    } else if method == "tools/call"@ {
        match tool_name {
            Some(n) => RouteV::CallTool(n),
            None => RouteV::Fail(-32602i32, "missing `name`"@),
        }
    } else if method == "ping"@ {
        RouteV::Ping
    } else {
        RouteV::Fail(-32601i32, "method not found: "@ + method)
    }
}

/// Route one message. A notification (no `id`) gets no answer: `None`.
pub fn route(has_id: bool, method: &str, tool_name: Option<String>) -> (r: Option<Route>)
    ensures
        !has_id ==> r.is_none(),
        has_id ==> (r matches Some(x) && x@ == route_spec(
            method@,
            match tool_name {
                Some(n) => Some(n@),
                None => None,
            },
        )),
{
    if !has_id {
        return None;
    }
    let r = if text_eq(method, "initialize") {
        Route::Initialize
    } else if text_eq(method, "tools/list") {
        Route::ListTools
    } else if text_eq(method, "tools/call") {
        match tool_name {
            Some(n) => Route::CallTool(n),
            None => Route::Fail(RpcError::invalid_params(String::from_str("missing `name`"))),
        }
    } else if text_eq(method, "ping") {
        Route::Ping
    } else {
        Route::Fail(RpcError::method_not_found(method))
    };
    Some(r)
}

/// The values of `NEBULA_MCP_ALLOW_WRITES` that enable mutating tools.
pub open spec fn truthy(v: Seq<char>) -> bool {
    v == "1"@ || v == "true"@ || v == "TRUE"@ || v == "yes"@
}

/// Whether the write gate is open, from the variable's value (`None` when
/// unset or not Unicode).
pub fn writes_enabled(value: Option<&str>) -> (r: bool)
    ensures
        r == (value matches Some(v) && truthy(v@)),
{
    match value {
        Some(v) => text_eq(v, "1") || text_eq(v, "true") || text_eq(v, "TRUE") || text_eq(v, "yes"),
        None => false,
    }
}

/// The bearer token setting: an empty value counts as none.
pub fn token_setting(value: Option<String>) -> (r: Option<String>)
    ensures
        match value {
            Some(v) => if v@.len() > 0 {
                r == Some(v)
            } else {
                r.is_none()
            },
            None => r.is_none(),
        },
{
    match value {
        Some(v) => if v.as_str().is_empty() {
            None
        } else {
            Some(v)
        },
        None => None,
    }
}

/// The admin API address setting, `127.0.0.1:8080` when unset.
pub fn api_setting(value: Option<String>) -> (r: String)
    ensures
        match value {
            Some(v) => r == v,
            None => r@ == "127.0.0.1:8080"@,
        },
{
    match value {
        Some(v) => v,
        None => String::from_str("127.0.0.1:8080"),
    }
}

} // verus!
