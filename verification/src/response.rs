//! Responses: the bytes of their heads, and what is to follow them.
use crate::bytes;
use crate::number;
use crate::runtime::RuntimeConfig;
use vstd::prelude::*;
use vstd::utf8::*;

verus! {

/// Where the body of a response comes from, beyond what stands behind its head.
#[derive(Clone, Copy, Debug, PartialEq, Eq, Structural)]
pub enum ResponseBody {
    Empty,
    /// A served file.
    File,
    /// A temporary file that holds the body that an upstream server sent.
    TempFile,
}

/// A response: bytes to send, where the rest of the body comes from, and whether the
/// connection is to be closed after it in any case.
#[derive(Debug)]
pub struct Response {
    pub head: Vec<u8>,
    pub body: ResponseBody,
    pub close: bool,
}

/// What a `Response` holds.
#[verifier::ext_equal]
pub struct ResponseView {
    pub head: Seq<u8>,
    pub body: ResponseBody,
    pub close: bool,
}

impl View for Response {
    type V = ResponseView;

    open spec fn view(&self) -> ResponseView {
        ResponseView { head: self.head@, body: self.body, close: self.close }
    }
}

impl ResponseView {
    /// A response that is complete.
    pub open spec fn whole(bytes: Seq<u8>) -> ResponseView {
        ResponseView { head: bytes, body: ResponseBody::Empty, close: false }
    }

    /// A response that is complete and ends the connection.
    pub open spec fn last(bytes: Seq<u8>) -> ResponseView {
        ResponseView { head: bytes, body: ResponseBody::Empty, close: true }
    }

    /// A response whose body is the contents of a file.
    pub open spec fn with_file(head: Seq<u8>) -> ResponseView {
        ResponseView { head, body: ResponseBody::File, close: false }
    }

    /// A response whose body is the contents of a temporary file.
    pub open spec fn with_temp_file(head: Seq<u8>) -> ResponseView {
        ResponseView { head, body: ResponseBody::TempFile, close: false }
    }
}

impl Response {
    /// A response that is complete.
    pub fn new(bytes: Vec<u8>) -> (r: Response)
        ensures
            r@ == ResponseView::whole(bytes@),
    {
        Response { head: bytes, body: ResponseBody::Empty, close: false }
    }

    /// A response that is complete and ends the connection.
    pub fn close(bytes: Vec<u8>) -> (r: Response)
        ensures
            r@ == ResponseView::last(bytes@),
    {
        Response { head: bytes, body: ResponseBody::Empty, close: true }
    }

    /// A response whose body is the contents of a file.
    pub fn streamed(head: Vec<u8>) -> (r: Response)
        ensures
            r@ == ResponseView::with_file(head@),
    {
        Response { head, body: ResponseBody::File, close: false }
    }

    /// A response whose body is the contents of a temporary file.
    pub fn with_temp_body(head: Vec<u8>) -> (r: Response)
        ensures
            r@ == ResponseView::with_temp_file(head@),
    {
        Response { head, body: ResponseBody::TempFile, close: false }
    }
}

/// The headers that say whether the connection stays open, and for how long.
pub open spec fn connection_text(runtime: RuntimeConfig, keep_alive: bool) -> Seq<char> {
    "Connection: "@ + (if keep_alive {
        "keep-alive"@
    } else {
        "close"@
    }) + "\r\nKeep-Alive: timeout="@ + number::decimal(runtime.keep_alive_timeout_secs as nat)
        + ", max="@ + number::decimal(runtime.keep_alive_max as nat) + "\r\n"@
}

/// The head of a response, with the empty line that ends it.
pub open spec fn head_text(
    status: u16,
    reason: Seq<char>,
    content_type: Seq<char>,
    content_length: nat,
    keep_alive: bool,
    runtime: RuntimeConfig,
) -> Seq<char> {
    "HTTP/1.1 "@ + number::decimal(status as nat) + " "@ + reason
        + "\r\nServer: pear\r\nContent-Type: "@ + content_type + "\r\nContent-Length: "@
        + number::decimal(content_length) + "\r\nCache-Control: no-cache\r\n"@ + connection_text(
        runtime,
        keep_alive,
    ) + "\r\n"@
}

/// The bytes of a response with its whole body.
pub open spec fn response_bytes(
    status: u16,
    reason: Seq<char>,
    content_type: Seq<char>,
    body: Seq<u8>,
    keep_alive: bool,
    runtime: RuntimeConfig,
) -> Seq<u8> {
    encode_utf8(head_text(status, reason, content_type, body.len(), keep_alive, runtime)) + body
}

/// A response with a plain text as its body.
pub open spec fn plain_bytes(
    status: u16,
    reason: Seq<char>,
    body: Seq<char>,
    keep_alive: bool,
    runtime: RuntimeConfig,
) -> Seq<u8> {
    response_bytes(status, reason, "text/plain"@, encode_utf8(body), keep_alive, runtime)
}

/// Writes the headers that say whether the connection stays open, and for how long.
pub fn connection_headers(runtime: &RuntimeConfig, keep_alive: bool) -> (r: String)
    ensures
        r@ == connection_text(*runtime, keep_alive),
{
    let mut out = "Connection: ".to_owned();
    if keep_alive {
        out.append("keep-alive");
    } else {
        out.append("close");
    }
    out.append("\r\nKeep-Alive: timeout=");
    number::push_decimal(&mut out, runtime.keep_alive_timeout_secs);
    out.append(", max=");
    number::push_decimal(&mut out, runtime.keep_alive_max as u64);
    out.append("\r\n");
    out
}

/// Writes the head of a response.
pub fn build_head_response(
    status: u16,
    reason: &str,
    content_type: &str,
    content_length: usize,
    keep_alive: bool,
    runtime: &RuntimeConfig,
) -> (r: Vec<u8>)
    ensures
        r@ == encode_utf8(
            head_text(
                status,
                reason@,
                content_type@,
                content_length as nat,
                keep_alive,
                *runtime,
            ),
        ),
{
    let mut out = "HTTP/1.1 ".to_owned();
    number::push_decimal(&mut out, status as u64);
    out.append(" ");
    out.append(reason);
    out.append("\r\nServer: pear\r\nContent-Type: ");
    out.append(content_type);
    out.append("\r\nContent-Length: ");
    number::push_decimal(&mut out, content_length as u64);
    out.append("\r\nCache-Control: no-cache\r\n");
    out.append(connection_headers(runtime, keep_alive).as_str());
    out.append("\r\n");
    bytes::encode(out.as_str())
}

/// Writes a response with its whole body.
pub fn build_response(
    status: u16,
    reason: &str,
    content_type: &str,
    body: &[u8],
    keep_alive: bool,
    runtime: &RuntimeConfig,
) -> (r: Vec<u8>)
    ensures
        r@ == response_bytes(status, reason@, content_type@, body@, keep_alive, *runtime),
{
    let mut out = build_head_response(
        status,
        reason,
        content_type,
        body.len(),
        keep_alive,
        runtime,
    );
    bytes::append(&mut out, body);
    out
}

/// Writes a response with a plain text as its body.
pub fn plain_response(
    status: u16,
    reason: &str,
    body: &str,
    keep_alive: bool,
    runtime: &RuntimeConfig,
) -> (r: Vec<u8>)
    ensures
        r@ == plain_bytes(status, reason@, body@, keep_alive, *runtime),
{
    build_response(status, reason, "text/plain", body.as_bytes(), keep_alive, runtime)
}

/// What a client gets that cannot be served because too many are connected.
pub open spec fn busy_text() -> Seq<char> {
    "HTTP/1.1 503 Service Unavailable\r\nServer: pear\r\nContent-Length: 0\r\nConnection: close\r\n\r\n"@
}

/// Writes what a client gets that cannot be served because too many are connected.
pub fn busy_response() -> (r: Vec<u8>)
    ensures
        r@ == encode_utf8(busy_text()),
{
    bytes::encode(
        "HTTP/1.1 503 Service Unavailable\r\nServer: pear\r\nContent-Length: 0\r\nConnection: close\r\n\r\n",
    )
}

/// The head of a response is not empty.
pub proof fn lemma_head_not_empty(
    status: u16,
    reason: Seq<char>,
    content_type: Seq<char>,
    content_length: nat,
    keep_alive: bool,
    runtime: RuntimeConfig,
)
    ensures
        encode_utf8(
            head_text(status, reason, content_type, content_length, keep_alive, runtime),
        ).len() > 0,
{
    let whole = head_text(status, reason, content_type, content_length, keep_alive, runtime);
    let start = whole.drop_last();
    reveal_strlit("\r\n");
    assert(whole.last() == '\n');
    assert(whole == start + seq![whole.last()]);
    bytes::lemma_encode_concat(start, seq![whole.last()]);
    bytes::lemma_encode_one('\n');
}

} // verus!
