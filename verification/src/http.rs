//! The little HTTP/1.0 the admin clients speak: building a request, finding
//! the status code and the body of a response, and judging the status.
use crate::text::{
    decimal, parse_unsigned, parse_unsigned_bytes, push_bytes, push_decimal,
    split_whitespace_bytes, str_bytes, text_from_bytes, tokens_from, trim, trim_bytes, IntError,
};
use vstd::prelude::*;
use vstd::string::StringExecFns;
use vstd::string::StringSliceAdditionalSpecFns;

verus! {

/// `std::str::from_utf8(b).is_ok()`: whether `b` is well-formed UTF-8.
#[verifier::external_body]
pub(crate) fn is_utf8(b: &[u8]) -> (r: bool)
    ensures
        r == vstd::utf8::valid_utf8(b@),
{
    std::str::from_utf8(b).is_ok()
}

/// Index of the first `c` in `b` at or after `i`, or the length.
pub open spec fn find_byte(b: Seq<u8>, c: u8, i: int) -> int
    decreases b.len() - i,
{
    if i < 0 || i >= b.len() {
        b.len() as int
    } else if b[i] == c {
        i
    } else {
        find_byte(b, c, i + 1)
    }
}

/// The first line of `b`: everything before the first `\n`.
pub open spec fn first_line(b: Seq<u8>) -> Seq<u8> {
    b.take(find_byte(b, 10, 0))
}

/// `b[i..i+4]` is the blank line `\r\n\r\n` that ends the head.
pub open spec fn blank_line_at(b: Seq<u8>, i: int) -> bool {
    0 <= i && i + 4 <= b.len() && b[i] == 13 && b[i + 1] == 10 && b[i + 2] == 13 && b[i + 3] == 10
}

/// Start of the first `\r\n\r\n` at or after `i`.
pub open spec fn blank_line_from(b: Seq<u8>, i: int) -> Option<int>
    decreases b.len() - i,
{
    if i < 0 || i + 4 > b.len() {
        None
    } else if blank_line_at(b, i) {
        Some(i)
    } else {
        blank_line_from(b, i + 1)
    }
}

/// `text.split_once("\r\n\r\n").unwrap_or(("", text))`: the head and the
/// body of a response.
pub open spec fn split_head_body(b: Seq<u8>) -> (Seq<u8>, Seq<u8>) {
    match blank_line_from(b, 0) {
        Some(i) => (b.take(i), b.skip(i + 4)),
        None => (Seq::<u8>::empty(), b),
    }
}

proof fn lemma_blank_line_from(b: Seq<u8>, i: int)
    ensures
        blank_line_from(b, i) matches Some(j) ==> blank_line_at(b, j),
    decreases b.len() - i,
{
    if !(i < 0 || i + 4 > b.len()) && !blank_line_at(b, i) {
        lemma_blank_line_from(b, i + 1);
    }
}

/// The body of a valid UTF-8 response is valid UTF-8: it starts after the
/// ASCII `\n` that ends the blank line, or is the whole response.
pub proof fn lemma_body_utf8(b: Seq<u8>)
    requires
        vstd::utf8::valid_utf8(b),
    ensures
        vstd::utf8::valid_utf8(split_head_body(b).1),
{
    lemma_blank_line_from(b, 0);
    if let Some(i) = blank_line_from(b, 0) {
        crate::text::lemma_utf8_after_ascii(b, i + 4);
        assert(b.skip(i + 4) =~= b.subrange(i + 4, b.len() as int));
    }
}

/// Why a status line gave no status code.
#[derive(Debug, Clone, Copy, PartialEq, Eq, Structural)]
pub enum StatusError {
    /// The bytes are not UTF-8.
    NonUtf8,
    /// There is no second word on the status line.
    Malformed,
    /// The second word is not a `u16`.
    NotU16(IntError),
}

/// The status code of a status line (`HTTP/1.x NNN ...`): its second
/// whitespace-separated word, read as a `u16`.
pub open spec fn status_of_line(line: Seq<u8>) -> Result<u16, StatusError> {
    let words = tokens_from(line, 0);
    if words.len() < 2 {
        Err(StatusError::Malformed)
    } else {
        match parse_unsigned(words[1], 65535) {
            Ok(v) => Ok(v as u16),
            Err(e) => Err(StatusError::NotU16(e)),
        }
    }
}

/// What `parse_status` gives for a raw response: the status code of its
/// first line, which must be UTF-8.
pub open spec fn status_spec(buf: Seq<u8>) -> Result<u16, StatusError> {
    if !vstd::utf8::valid_utf8(first_line(buf)) {
        Err(StatusError::NonUtf8)
    } else {
        status_of_line(first_line(buf))
    }
}

fn find_byte_exec(b: &[u8], c: u8) -> (r: usize)
    ensures
        r == find_byte(b@, c, 0),
        r <= b@.len(),
{
    let mut i: usize = 0;
    while i < b.len() && b[i] != c
        invariant
            i <= b@.len(),
            find_byte(b@, c, i as int) == find_byte(b@, c, 0),
        decreases b@.len() - i,
    {
        i = i + 1;
    }
    i
}

fn blank_line_exec(b: &[u8]) -> (r: Option<usize>)
    ensures
        match blank_line_from(b@, 0) {
            Some(i) => r == Some(i as usize) && blank_line_at(b@, i),
            None => r.is_none(),
        },
        r matches Some(j) ==> j + 4 <= b.len(),
{
    let mut i: usize = 0;
    while b.len() >= 4 && i <= b.len() - 4
        invariant
            blank_line_from(b@, i as int) == blank_line_from(b@, 0),
        decreases b@.len() - i,
    {
        if b[i] == 13 && b[i + 1] == 10 && b[i + 2] == 13 && b[i + 3] == 10 {
            return Some(i);
        }
        i = i + 1;
    }
    None
}

/// The status code of the first line of `line`'s bytes, which are UTF-8.
fn status_of_line_exec(line: &[u8]) -> (r: Result<u16, StatusError>)
    ensures
        r == status_of_line(line@),
{
    let words = split_whitespace_bytes(line);
    proof {
        assert(crate::wire::name::label_views(words@).len() == words@.len());
    }
    if words.len() < 2 {
        return Err(StatusError::Malformed);
    }
    proof {
        assert(crate::wire::name::label_views(words@)[1] == words@[1]@);
    }
    match parse_unsigned_bytes(words[1].as_slice(), 65535) {
        Ok(v) => Ok(v as u16),
        Err(e) => Err(StatusError::NotU16(e)),
    }
}

/// The status code of a raw HTTP response, read from its first line.
pub fn parse_status(buf: &[u8]) -> (r: Result<u16, StatusError>)
    ensures
        r == status_spec(buf@),
{
    let end = find_byte_exec(buf, 10);
    let line = vstd::slice::slice_subrange(buf, 0, end);
    proof {
        assert(line@ =~= first_line(buf@));
    }
    if !is_utf8(line) {
        return Err(StatusError::NonUtf8);
    }
    status_of_line_exec(line)
}

/// A response as the API client sees it.
pub struct HttpResponse {
    pub status: u16,
    pub body: String,
}

/// Why a response could not be read.
#[derive(Debug, Clone, Copy, PartialEq, Eq, Structural)]
pub enum ResponseError {
    NonUtf8,
    Status(StatusError),
}

/// The status code that `parse_response` reads from `buf`: that of the
/// first line of the head.
pub open spec fn response_status(buf: Seq<u8>) -> Result<u16, StatusError> {
    status_of_line(first_line(split_head_body(buf).0))
}

/// Read a whole raw response: it must be UTF-8; the head ends at the first
/// blank line (with none, the head is empty and everything is body); the
/// status code is the second word of the head's first line.
pub fn parse_response(buf: &[u8]) -> (r: Result<HttpResponse, ResponseError>)
    ensures
        !vstd::utf8::valid_utf8(buf@) ==> r matches Err(ResponseError::NonUtf8),
        vstd::utf8::valid_utf8(buf@) ==> match response_status(buf@) {
            Err(e) => r == Err::<HttpResponse, ResponseError>(ResponseError::Status(e)),
            Ok(s) => (r matches Ok(resp) && resp.status == s && resp.body@ == vstd::utf8::decode_utf8(
                split_head_body(buf@).1,
            )),
        },
{
    if !is_utf8(buf) {
        return Err(ResponseError::NonUtf8);
    }
    let split = blank_line_exec(buf);
    let (head, body) = match split {
        Some(i) => {
            let start: usize = i + 4;
            (vstd::slice::slice_subrange(buf, 0, i), vstd::slice::slice_subrange(buf, start, buf.len()))
        },
        None => (vstd::slice::slice_subrange(buf, 0, 0), buf),
    };
    proof {
        assert(head@ =~= split_head_body(buf@).0);
        assert(body@ =~= split_head_body(buf@).1);
    }
    let end = find_byte_exec(head, 10);
    let line = vstd::slice::slice_subrange(head, 0, end);
    proof {
        assert(line@ =~= first_line(head@));
    }
    match status_of_line_exec(line) {
        Err(e) => Err(ResponseError::Status(e)),
        Ok(status) => {
            proof {
                lemma_body_utf8(buf@);
            }
            Ok(HttpResponse { status, body: text_from_bytes(body) })
        },
    }
}

/// A 2xx status.
pub open spec fn is_success(status: u16) -> bool {
    200 <= status < 300
}

/// The ASCII bytes `HTTP <status>: ` that open the message `expect_success`
/// fails with.
pub open spec fn http_error_prefix(status: u16) -> Seq<u8> {
    seq![72u8, 84u8, 84u8, 80u8, 32u8] + decimal(status as nat) + seq![58u8, 32u8]
}

/// The bytes of the message `expect_success` fails with:
/// `HTTP <status>: <trimmed body>`.
pub open spec fn http_error_bytes(status: u16, body: Seq<u8>) -> Seq<u8> {
    http_error_prefix(status) + trim(body)
}

/// The text of that message: the characters of the ASCII prefix, then the
/// trimmed body.
pub open spec fn http_error_text(status: u16, body: Seq<char>) -> Seq<char> {
    crate::text::ascii_chars(http_error_prefix(status)) + vstd::utf8::decode_utf8(trim(vstd::utf8::encode_utf8(body)))
}

/// The message is valid UTF-8 and reads as `http_error_text`.
pub proof fn lemma_http_error_text(status: u16, body: Seq<char>)
    ensures
        vstd::utf8::valid_utf8(http_error_bytes(status, vstd::utf8::encode_utf8(body))),
        vstd::utf8::decode_utf8(http_error_bytes(status, vstd::utf8::encode_utf8(body))) == http_error_text(
            status,
            body,
        ),
{
    let p = http_error_prefix(status);
    crate::text::lemma_decimal_ascii(status as nat);
    assert(crate::text::all_ascii(p)) by {
        let d = decimal(status as nat);
        assert forall|i: int| 0 <= i < p.len() implies (#[trigger] p[i]) < 128 by {
            if 5 <= i < 5 + d.len() {
                assert(p[i] == d[i - 5]);
            }
        }
    }
    crate::text::lemma_ascii_utf8(p);
    vstd::utf8::encode_utf8_valid_utf8(body);
    crate::text::lemma_trim_utf8(vstd::utf8::encode_utf8(body));
    crate::text::lemma_utf8_concat_decode(p, trim(vstd::utf8::encode_utf8(body)));
}

impl HttpResponse {
    /// 2xx is success; any other status fails with `HTTP <status>: <body>`,
    /// the body trimmed.
    pub fn expect_success(&self) -> (r: Result<(), String>)
        ensures
            is_success(self.status) ==> r is Ok,
            !is_success(self.status) ==> (r matches Err(m) && m@ == http_error_text(self.status, self.body@)),
    {
        if 200 <= self.status && self.status < 300 {
            return Ok(());
        }
        let mut out: Vec<u8> = Vec::new();
        out.push(72);
        out.push(84);
        out.push(84);
        out.push(80);
        out.push(32);
        push_decimal(&mut out, self.status as u64);
        out.push(58);
        out.push(32);
        let t = trim_bytes(str_bytes(self.body.as_str()));
        push_bytes(&mut out, t.as_slice());
        proof {
            assert(out@ =~= http_error_bytes(self.status, vstd::utf8::encode_utf8(self.body@)));
            lemma_http_error_text(self.status, self.body@);
        }
        Err(text_from_bytes(out.as_slice()))
    }
}

impl HttpResponse {
    /// Whether the body holds anything but whitespace (an empty answer is
    /// read as JSON `null`).
    pub fn has_content(&self) -> (r: bool)
        ensures
            r == (trim(vstd::utf8::encode_utf8(self.body@)).len() > 0),
    {
        let t = trim_bytes(str_bytes(self.body.as_str()));
        t.len() > 0
    }
}

/// The request line and headers of a request to the admin API, then its
/// body: `METHOD PATH HTTP/1.0`, `Host`, `Connection: close`, `Accept:
/// application/json`, `Authorization: Bearer` with the token if any, and
/// `Content-Type` and `Content-Length` with the body if any.
pub open spec fn request_bytes(
    method: Seq<u8>,
    path: Seq<u8>,
    host: Seq<u8>,
    token: Option<Seq<u8>>,
    body: Option<(Seq<u8>, Seq<u8>)>,
) -> Seq<u8> {
    let head = method + " ".spec_bytes() + path + " HTTP/1.0\r\nHost: ".spec_bytes() + host
        + "\r\nConnection: close\r\nAccept: application/json\r\n".spec_bytes();
    let auth = match token {
        Some(t) => "Authorization: Bearer ".spec_bytes() + t + "\r\n".spec_bytes(),
        None => Seq::<u8>::empty(),
    };
    let typed = match body {
        Some((ct, b)) => "Content-Type: ".spec_bytes() + ct + "\r\n".spec_bytes() + "Content-Length: ".spec_bytes()
            + decimal(b.len()) + "\r\n".spec_bytes(),
        None => Seq::<u8>::empty(),
    };
    let payload = match body {
        Some((ct, b)) => b,
        None => Seq::<u8>::empty(),
    };
    head + auth + typed + "\r\n".spec_bytes() + payload
}

fn push_str_bytes(out: &mut Vec<u8>, s: &str)
    ensures
        final(out)@ == old(out)@ + s.spec_bytes(),
{
    push_bytes(out, str_bytes(s));
}

/// A request to the admin API, as bytes ready to send.
pub fn build_request(
    method: &str,
    path: &str,
    host: &str,
    token: Option<&str>,
    body: Option<(&str, &str)>,
) -> (r: Vec<u8>)
    ensures
        r@ == request_bytes(
            method.spec_bytes(),
            path.spec_bytes(),
            host.spec_bytes(),
            match token {
                Some(t) => Some(t.spec_bytes()),
                None => None,
            },
            match body {
                Some((ct, b)) => Some((ct.spec_bytes(), b.spec_bytes())),
                None => None,
            },
        ),
{
    let mut out: Vec<u8> = Vec::new();
    push_str_bytes(&mut out, method);
    push_str_bytes(&mut out, " ");
    push_str_bytes(&mut out, path);
    push_str_bytes(&mut out, " HTTP/1.0\r\nHost: ");
    push_str_bytes(&mut out, host);
    push_str_bytes(&mut out, "\r\nConnection: close\r\nAccept: application/json\r\n");
    let ghost head = out@;
    match token {
        Some(t) => {
            push_str_bytes(&mut out, "Authorization: Bearer ");
            push_str_bytes(&mut out, t);
            push_str_bytes(&mut out, "\r\n");
        },
        None => {},
    }
    let ghost with_auth = out@;
    match body {
        Some((ct, b)) => {
            push_str_bytes(&mut out, "Content-Type: ");
            push_str_bytes(&mut out, ct);
            push_str_bytes(&mut out, "\r\n");
            push_str_bytes(&mut out, "Content-Length: ");
            let n = str_bytes(b).len();
            push_decimal(&mut out, n as u64);
            push_str_bytes(&mut out, "\r\n");
        },
        None => {},
    }
    push_str_bytes(&mut out, "\r\n");
    match body {
        Some((ct, b)) => push_str_bytes(&mut out, b),
        None => {},
    }
    proof {
        assert(out@ =~= request_bytes(
            method.spec_bytes(),
            path.spec_bytes(),
            host.spec_bytes(),
            match token {
                Some(t) => Some(t.spec_bytes()),
                None => None,
            },
            match body {
                Some((ct, b)) => Some((ct.spec_bytes(), b.spec_bytes())),
                None => None,
            },
        ));
    }
    out
}

/// What the container health probe makes of the first bytes of the
/// answer to `GET /livez`.
#[derive(Debug, Clone, Copy, PartialEq, Eq, Structural)]
pub enum ProbeVerdict {
    Healthy,
    /// Fewer than 12 bytes came back (the count).
    Short(usize),
    /// The status code (bytes 9 to 11) is not `200`.
    NotOk,
}

/// The probe's verdict on the bytes `first` it read: at least 12 bytes
/// (`HTTP/1.x NNN`), with `200` at bytes 9 to 11.
pub fn livez_verdict(first: &[u8]) -> (r: ProbeVerdict)
    ensures
        first@.len() < 12 ==> r == ProbeVerdict::Short(first@.len() as usize),
        first@.len() >= 12 ==> (r == ProbeVerdict::Healthy <==> first@.subrange(9, 12) == "200".spec_bytes()),
        first@.len() >= 12 ==> (r == ProbeVerdict::Healthy || r == ProbeVerdict::NotOk),
{
    if first.len() < 12 {
        return ProbeVerdict::Short(first.len());
    }
    let want = str_bytes("200");
    proof {
        reveal_strlit("200");
        vstd::string::is_ascii_spec_bytes("200");
        assert(want@ =~= seq![50u8, 48u8, 48u8]);
    }
    if first[9] == 50 && first[10] == 48 && first[11] == 48 {
        assert(first@.subrange(9, 12) =~= want@);
        ProbeVerdict::Healthy
    } else {
        ProbeVerdict::NotOk
    }
}

/// The body of a raw response: what follows its first blank line, or all
/// of it when there is none.
pub fn body_of(buf: &[u8]) -> (r: &[u8])
    ensures
        r@ == split_head_body(buf@).1,
{
    match blank_line_exec(buf) {
        Some(i) => {
            let start: usize = i + 4;
            let r = vstd::slice::slice_subrange(buf, start, buf.len());
            assert(r@ =~= split_head_body(buf@).1);
            r
        },
        None => buf,
    }
}

} // verus!
