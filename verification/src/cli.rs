//! The admin CLI's logic: its commands, the probe request it sends, and
//! how it reads the answers.
use crate::http::{is_success, is_utf8, split_head_body};
use crate::text::{push_bytes, str_bytes, text_from_bytes, trim, trim_bytes};
use vstd::prelude::*;
use vstd::string::StringExecFns;
use vstd::string::StringSliceAdditionalSpecFns;

verus! {

/// The CLI's subcommands.
#[derive(Debug, Clone, Copy, PartialEq, Eq, Structural)]
pub enum Cmd {
    /// Print CLI and server version information.
    Version,
    /// Probe `/livez` and `/readyz` on the admin endpoint.
    Health,
}

/// `GET <path> HTTP/1.0` to `localhost`, closing the connection.
pub open spec fn probe_bytes(path: Seq<u8>) -> Seq<u8> {
    "GET ".spec_bytes() + path + " HTTP/1.0\r\nHost: localhost\r\nConnection: close\r\n\r\n".spec_bytes()
}

/// The request the CLI sends for `path`.
pub fn probe_request(path: &str) -> (r: Vec<u8>)
    ensures
        r@ == probe_bytes(path.spec_bytes()),
{
    let mut out: Vec<u8> = Vec::new();
    push_bytes(&mut out, str_bytes("GET "));
    push_bytes(&mut out, str_bytes(path));
    push_bytes(&mut out, str_bytes(" HTTP/1.0\r\nHost: localhost\r\nConnection: close\r\n\r\n"));
    proof {
        assert(out@ =~= probe_bytes(path.spec_bytes()));
    }
    out
}

/// The server is healthy when both probes answered 2xx; otherwise the
/// command fails with `server not healthy`.
pub fn health_verdict(livez: u16, readyz: u16) -> (r: Result<(), String>)
    ensures
        (is_success(livez) && is_success(readyz)) ==> r is Ok,
        !(is_success(livez) && is_success(readyz)) ==> (r matches Err(m) && m@ == "server not healthy"@),
{
    if !(200 <= livez && livez < 300) || !(200 <= readyz && readyz < 300) {
        return Err(String::from_str("server not healthy"));
    }
    Ok(())
}

/// The trimmed body of a raw answer, for `version`; `None` when the answer
/// is not UTF-8.
pub fn body_text(buf: &[u8]) -> (r: Option<String>)
    ensures
        !vstd::utf8::valid_utf8(buf@) ==> r.is_none(),
        vstd::utf8::valid_utf8(buf@) ==> (r matches Some(s) && s@ == vstd::utf8::decode_utf8(
            trim(split_head_body(buf@).1),
        )),
{
    if !is_utf8(buf) {
        return None;
    }
    let body = crate::http::body_of(buf);
    let t = trim_bytes(body);
    proof {
        crate::http::lemma_body_utf8(buf@);
        crate::text::lemma_trim_utf8(split_head_body(buf@).1);
    }
    Some(text_from_bytes(t.as_slice()))
}

} // verus!
