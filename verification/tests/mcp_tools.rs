use nebuladns::http::{parse_response, HttpResponse};
use nebuladns::mcp::catalogue::catalogue;
use nebuladns::mcp::protocol::{initialize_result, Content, RpcError, ToolCallResult, PROTOCOL_VERSION};
use nebuladns::mcp::server::{api_setting, route, token_setting, writes_enabled, Route};
use nebuladns::mcp::tools::{
    call_outcome, guard_write, health_report, metrics_result, plan, zone_path, ArgValue, Body, ToolArgs, ToolPlan,
};

fn args(pairs: &[(&str, Option<&str>)]) -> ToolArgs {
    ToolArgs {
        entries: pairs
            .iter()
            .map(|(k, v)| {
                (
                    k.to_string(),
                    match v {
                        Some(s) => ArgValue::Str(s.to_string()),
                        None => ArgValue::Other,
                    },
                )
            })
            .collect(),
    }
}

fn text_of(r: &ToolCallResult) -> &str {
    match &r.content[0] {
        Content::Text { text } => text.as_str(),
    }
}

#[test]
fn parse_ok_body() {
    let raw = b"HTTP/1.0 200 OK\r\nContent-Type: application/json\r\n\r\n{\"a\":1}";
    let r = parse_response(raw).unwrap();
    assert_eq!(r.status, 200);
    assert_eq!(r.body, "{\"a\":1}");
    r.expect_success().unwrap();
}

#[test]
fn parse_error_body() {
    let raw = b"HTTP/1.0 404 Not Found\r\n\r\nnope";
    let r = parse_response(raw).unwrap();
    assert_eq!(r.status, 404);
    assert!(r.expect_success().is_err());
    assert_eq!(r.expect_success().err().unwrap(), "HTTP 404: nope");
}

#[test]
fn parse_empty_body() {
    let raw = b"HTTP/1.0 204 No Content\r\n\r\n";
    let r = parse_response(raw).unwrap();
    assert_eq!(r.status, 204);
    assert!(r.body.is_empty());
}

#[test]
fn parse_response_failures() {
    assert!(parse_response(b"\xff\xfe").is_err());
    assert!(parse_response(b"no blank line").is_err());
    assert!(parse_response(b"HTTP/1.0 abc\r\n\r\n").is_err());
}

#[test]
fn config_parses_write_gate_truthy_values() {
    for truthy in ["1", "true", "TRUE", "yes"] {
        assert!(writes_enabled(Some(truthy)));
    }
    for falsy in ["0", "True", "no", ""] {
        assert!(!writes_enabled(Some(falsy)));
    }
    assert!(!writes_enabled(None));
}

#[test]
fn settings_defaults() {
    assert_eq!(api_setting(None), "127.0.0.1:8080");
    assert_eq!(api_setting(Some("10.0.0.1:9000".into())), "10.0.0.1:9000");
    assert_eq!(token_setting(Some(String::new())), None);
    assert_eq!(token_setting(Some("t".into())), Some("t".to_string()));
}

#[test]
fn write_gate_blocks_without_env() {
    assert!(guard_write(false).is_err());
    assert!(guard_write(true).is_ok());
}

#[test]
fn zone_path_rejects_bad_chars() {
    assert!(zone_path(&args(&[("name", Some("evil zone"))]), "").is_err());
    assert!(zone_path(&args(&[("name", Some("../../etc/passwd"))]), "").is_err());
}

#[test]
fn zone_path_strips_trailing_dot() {
    let p = zone_path(&args(&[("name", Some("example.com."))]), "/history").unwrap();
    assert_eq!(p, "/api/v1/zones/example.com/history");
}

#[test]
fn zone_path_requires_name() {
    assert!(zone_path(&args(&[]), "").is_err());
    assert_eq!(zone_path(&args(&[("name", None)]), "").err().unwrap(), "missing or non-string `name`");
    assert_eq!(zone_path(&args(&[("name", Some(".."))]), "").err().unwrap(), "zone name is empty");
}

#[test]
fn catalogue_has_expected_tools() {
    let cat = catalogue();
    let names: Vec<&str> = cat.iter().map(|t| t.name).collect();
    for expected in ["health_check", "get_version", "get_metrics", "list_zones", "get_zone", "create_zone", "deploy"] {
        assert!(names.contains(&expected), "missing tool: {expected}");
    }
    assert_eq!(cat.len(), 18);
}

#[test]
fn tools_list_includes_read_and_write() {
    let cat = catalogue();
    assert!(cat.iter().any(|t| t.name == "health_check"));
    assert!(cat.iter().any(|t| t.name == "create_zone" && t.description.contains("[write]")));
}

#[test]
fn initialize_returns_capabilities() {
    let r = initialize_result("0.1.0");
    assert_eq!(r.protocol_version, PROTOCOL_VERSION);
    assert_eq!(r.protocol_version, "2024-11-05");
    assert_eq!(r.server_info.name, "nebula-mcp");
    assert!(!r.capabilities.tools.list_changed);
}

#[test]
fn unknown_method_returns_error() {
    match route(true, "does/not/exist", None) {
        Some(Route::Fail(e)) => {
            assert_eq!(e.code, -32601);
            assert_eq!(e.message, "method not found: does/not/exist");
        }
        _ => panic!("expected an error route"),
    }
}

#[test]
fn notifications_produce_no_response() {
    assert!(route(false, "notifications/initialized", None).is_none());
}

#[test]
fn tools_call_needs_a_name() {
    match route(true, "tools/call", None) {
        Some(Route::Fail(e)) => {
            assert_eq!(e.code, -32602);
            assert_eq!(e.message, "missing `name`");
        }
        _ => panic!("expected invalid params"),
    }
    assert!(matches!(route(true, "tools/call", Some("get_zone".into())), Some(Route::CallTool(n)) if n == "get_zone"));
    assert!(matches!(route(true, "ping", None), Some(Route::Ping)));
    assert!(matches!(route(true, "initialize", None), Some(Route::Initialize)));
    assert!(matches!(route(true, "tools/list", None), Some(Route::ListTools)));
}

#[test]
fn write_tool_refused_without_gate() {
    let a = args(&[("zone", None)]);
    let err = plan("create_zone", &a, false).err().unwrap();
    assert!(err.contains("NEBULA_MCP_ALLOW_WRITES"));
    let result = call_outcome(Err(err));
    assert!(result.is_error);
    assert!(text_of(&result).contains("NEBULA_MCP_ALLOW_WRITES"));
}

#[test]
fn plans_of_read_tools() {
    assert!(matches!(plan("health_check", &args(&[]), false), Ok(ToolPlan::HealthCheck)));
    assert!(matches!(plan("get_metrics", &args(&[]), false), Ok(ToolPlan::Metrics)));
    match plan("get_version", &args(&[]), false) {
        Ok(ToolPlan::GetJson(p)) => assert_eq!(p, "/api/v1/version"),
        _ => panic!("expected a GET"),
    }
    match plan("get_zone_history", &args(&[("name", Some("example.com."))]), false) {
        Ok(ToolPlan::GetJson(p)) => assert_eq!(p, "/api/v1/zones/example.com/history"),
        _ => panic!("expected a GET"),
    }
    match plan("get_deploy_status", &args(&[("deploy_id", Some("d-1"))]), false) {
        Ok(ToolPlan::GetJson(p)) => assert_eq!(p, "/api/v1/deploys/d-1"),
        _ => panic!("expected a GET"),
    }
    assert_eq!(plan("get_deploy_status", &args(&[]), false).err().unwrap(), "missing or non-string `deploy_id`");
}

#[test]
fn plans_of_write_tools() {
    match plan("add_records", &args(&[("name", Some("example.com")), ("records", None)]), true) {
        Ok(ToolPlan::PostJson(p, Body::WrappedArg(k))) => {
            assert_eq!(p, "/api/v1/zones/example.com/records");
            assert_eq!(k, "records");
        }
        _ => panic!("expected a POST"),
    }
    match plan("replace_zone", &args(&[("name", Some("example.com"))]), true) {
        Err(m) => assert_eq!(m, "missing `zone`"),
        _ => panic!("expected missing zone"),
    }
    match plan("trigger_dnssec_rollover", &args(&[("name", Some("example.com")), ("key_type", Some("ksk"))]), true) {
        Ok(ToolPlan::PostJson(p, Body::StrField(k, v))) => {
            assert_eq!(p, "/api/v1/zones/example.com/dnssec/rollover");
            assert_eq!(k, "key_type");
            assert_eq!(v, "ksk");
        }
        _ => panic!("expected a POST"),
    }
    assert!(matches!(plan("deploy", &args(&[]), true), Ok(ToolPlan::PostJson(_, Body::AllArgs))));
    assert!(matches!(plan("force_notify", &args(&[("name", Some("a.b"))]), true), Ok(ToolPlan::PostJson(_, Body::Null))));
}

#[test]
fn unknown_tool_answers_error_result() {
    match plan("nope", &args(&[]), true) {
        Ok(ToolPlan::Reply(r)) => {
            assert!(r.is_error);
            assert_eq!(text_of(&r), "unknown tool: nope");
        }
        _ => panic!("expected a reply"),
    }
}

#[test]
fn health_report_text() {
    let l = HttpResponse { status: 200, body: "{\"status\":\"ok\"}\n".to_string() };
    let r = HttpResponse { status: 503, body: " starting ".to_string() };
    let out = health_report(&l, &r);
    assert!(!out.is_error);
    assert_eq!(text_of(&out), "livez: 200 ({\"status\":\"ok\"})\nreadyz: 503 (starting)");
}

#[test]
fn metrics_result_passes_body_or_fails() {
    let ok = metrics_result(HttpResponse { status: 200, body: "m 1\n".into() }).unwrap();
    assert_eq!(text_of(&ok), "m 1\n");
    let err = metrics_result(HttpResponse { status: 500, body: " boom ".into() }).err().unwrap();
    assert_eq!(err, "HTTP 500: boom");
}

#[test]
fn rpc_error_codes() {
    assert_eq!(RpcError::method_not_found("x").code, -32601);
    assert_eq!(RpcError::invalid_params("p".into()).code, -32602);
    assert_eq!(RpcError::internal("i".into()).code, -32603);
    let t = ToolCallResult::text("ok".into());
    assert!(!t.is_error);
    let e = ToolCallResult::error("boom".into());
    assert!(e.is_error);
}
