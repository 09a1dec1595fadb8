//! The MCP (JSON-RPC 2.0) values this server produces, as plain data. The
//! JSON framing of each lives outside the library; here are their contents.
use vstd::prelude::*;
use vstd::string::StringExecFns;

verus! {

/// MCP protocol revision advertised during `initialize`.
pub const PROTOCOL_VERSION: &'static str = "2024-11-05";

/// A JSON-RPC error object (its `data` member is never set).
pub struct RpcError {
    pub code: i32,
    pub message: String,
}

impl RpcError {
    /// `-32601`, naming the method.
    pub fn method_not_found(method: &str) -> (r: RpcError)
        ensures
            r.code == -32601,
            r.message@ == "method not found: "@ + method@,
    {
        RpcError { code: -32601, message: String::from_str("method not found: ").concat(method) }
    }

    /// `-32602` with the given message.
    pub fn invalid_params(message: String) -> (r: RpcError)
        ensures
            r.code == -32602,
            r.message == message,
    {
        RpcError { code: -32602, message }
    }

    /// `-32603` with the given message.
    pub fn internal(message: String) -> (r: RpcError)
        ensures
            r.code == -32603,
            r.message == message,
    {
        RpcError { code: -32603, message }
    }
}

/// Server capabilities: only tools are offered.
#[derive(Debug, Clone, Copy)]
pub struct ServerCapabilities {
    pub tools: ToolsCapability,
}

/// Whether `notifications/tools/list_changed` is ever sent.
#[derive(Debug, Clone, Copy)]
pub struct ToolsCapability {
    pub list_changed: bool,
}

/// The answer to `initialize`.
#[derive(Debug, Clone, Copy)]
pub struct InitializeResult {
    pub protocol_version: &'static str,
    pub capabilities: ServerCapabilities,
    pub server_info: ServerInfo,
}

/// Name and version of this server.
#[derive(Debug, Clone, Copy)]
pub struct ServerInfo {
    pub name: &'static str,
    pub version: &'static str,
}

/// What `initialize` answers: the protocol revision, tools without change
/// notifications, and the server's name with the given version.
pub fn initialize_result(version: &'static str) -> (r: InitializeResult)
    ensures
        r.protocol_version@ == PROTOCOL_VERSION@,
        !r.capabilities.tools.list_changed,
        r.server_info.name@ == "nebula-mcp"@,
        r.server_info.version == version,
{
    InitializeResult {
        protocol_version: PROTOCOL_VERSION,
        capabilities: ServerCapabilities { tools: ToolsCapability { list_changed: false } },
        server_info: ServerInfo { name: "nebula-mcp", version },
    }
}

/// A content block of a tool result; only text is ever produced.
#[derive(Debug)]
pub enum Content {
    Text { text: String },
}

/// The result of `tools/call`. `is_error` marks a tool-level failure that
/// the model should see; transport problems are JSON-RPC errors instead.
#[derive(Debug)]
pub struct ToolCallResult {
    pub content: Vec<Content>,
    pub is_error: bool,
}

/// The texts of a result's content blocks.
pub open spec fn result_texts(r: ToolCallResult) -> Seq<Seq<char>> {
    r.content@.map_values(|c: Content| match c {
        Content::Text { text } => text@,
    })
}

impl ToolCallResult {
    /// One text block, not an error.
    pub fn text(body: String) -> (r: ToolCallResult)
        ensures
            result_texts(r) == seq![body@],
            !r.is_error,
    {
        let r = ToolCallResult { content: vec![Content::Text { text: body }], is_error: false };
        proof {
            assert(result_texts(r) =~= seq![body@]);
        }
        r
    }

    /// One text block, marked as an error.
    pub fn error(body: String) -> (r: ToolCallResult)
        ensures
            result_texts(r) == seq![body@],
            r.is_error,
    {
        let r = ToolCallResult { content: vec![Content::Text { text: body }], is_error: true };
        proof {
            assert(result_texts(r) =~= seq![body@]);
        }
        r
    }
}

} // verus!
