use nebuladns::cli::{body_text, health_verdict, probe_request, Cmd};
use nebuladns::config::{config_source, default_log_filter, Args, LoggingConfig, RunMode};
use nebuladns::http::{build_request, livez_verdict, parse_status, ProbeVerdict, StatusError};
use nebuladns::text::IntError;

#[test]
fn status_line_parsing() {
    assert_eq!(parse_status(b"HTTP/1.0 200 OK\r\n\r\n"), Ok(200));
    assert_eq!(parse_status(b"HTTP/1.1 503 Service Unavailable\r\n"), Ok(503));
    assert_eq!(parse_status(b"HTTP/1.0\r\n"), Err(StatusError::Malformed));
    assert_eq!(parse_status(b"HTTP/1.0 70000 X\r\n"), Err(StatusError::NotU16(IntError::PosOverflow)));
    assert_eq!(parse_status(b"HTTP/1.0 2x0 X\r\n"), Err(StatusError::NotU16(IntError::InvalidDigit)));
    assert_eq!(parse_status(b"\xff 200\n"), Err(StatusError::NonUtf8));
}

#[test]
fn probe_request_bytes() {
    assert_eq!(probe_request("/livez"), b"GET /livez HTTP/1.0\r\nHost: localhost\r\nConnection: close\r\n\r\n".to_vec());
}

#[test]
fn health_requires_both_probes() {
    assert!(health_verdict(200, 204).is_ok());
    assert_eq!(health_verdict(200, 503).err().unwrap(), "server not healthy");
    assert!(health_verdict(301, 200).is_err());
}

#[test]
fn version_body_is_trimmed() {
    assert_eq!(body_text(b"HTTP/1.0 200 OK\r\n\r\n {\"v\":1}\n"), Some("{\"v\":1}".to_string()));
    assert_eq!(body_text(b"plain"), Some("plain".to_string()));
    assert_eq!(body_text(b"\xff"), None);
}

#[test]
fn commands_are_distinct() {
    assert_ne!(Cmd::Version, Cmd::Health);
}

#[test]
fn request_building() {
    let r = build_request("POST", "/api/v1/zones", "127.0.0.1:8080", Some("tok"), Some(("application/json", "{}")));
    let expected = "POST /api/v1/zones HTTP/1.0\r\nHost: 127.0.0.1:8080\r\nConnection: close\r\nAccept: application/json\r\nAuthorization: Bearer tok\r\nContent-Type: application/json\r\nContent-Length: 2\r\n\r\n{}";
    assert_eq!(String::from_utf8(r).unwrap(), expected);
    let g = build_request("GET", "/livez", "h", None, None);
    assert_eq!(String::from_utf8(g).unwrap(), "GET /livez HTTP/1.0\r\nHost: h\r\nConnection: close\r\nAccept: application/json\r\n\r\n");
}

#[test]
fn livez_probe_verdicts() {
    assert_eq!(livez_verdict(b"HTTP/1.1 200 OK"), ProbeVerdict::Healthy);
    assert_eq!(livez_verdict(b"HTTP/1.0 503 X"), ProbeVerdict::NotOk);
    assert_eq!(livez_verdict(b"HTTP/1.0"), ProbeVerdict::Short(8));
}

#[test]
fn logging_defaults() {
    let l = LoggingConfig::default();
    assert_eq!(l.filter, "info,nebula=debug");
    assert!(l.json);
    assert_eq!(default_log_filter(), "info,nebula=debug");
}

#[test]
fn run_mode_precedence() {
    let a = Args { config: None, print_default_config: true, healthcheck: true };
    assert_eq!(a.mode(), RunMode::PrintDefaultConfig);
    let b = Args { config: None, print_default_config: false, healthcheck: true };
    assert_eq!(b.mode(), RunMode::Healthcheck);
    let c = Args { config: Some("x.toml".into()), print_default_config: false, healthcheck: false };
    assert_eq!(c.mode(), RunMode::Serve);
}

#[test]
fn config_file_choice() {
    assert_eq!(config_source(Some("a.toml".into()), true), Some("a.toml".to_string()));
    assert_eq!(config_source(None, true), Some("/etc/nebuladns/nebuladns.toml".to_string()));
    assert_eq!(config_source(None, false), None);
}
