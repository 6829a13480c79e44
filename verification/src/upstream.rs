//! The exchange with an upstream server: what is sent to it, and what becomes of its
//! answer.
use crate::bytes;
use crate::number;
use crate::request;
use crate::request::Request;
use crate::response;
use crate::rule;
use crate::rule::ProxyRule;
use crate::runtime::RuntimeConfig;
use crate::text;
use vstd::prelude::*;
use vstd::slice::slice_to_vec;
use vstd::utf8::*;

verus! {

/// How long to wait for an upstream server to take or send bytes, in seconds.
pub const UPSTREAM_TIMEOUT_SECS: u64 = 30;

/// How many bytes are read from a connection at once.
pub const READ_CHUNK_SIZE: usize = 8192;

/// What kind of failure an input or output operation ended with.
#[derive(Clone, Copy, Debug, PartialEq, Eq, Structural)]
pub enum FailureKind {
    WouldBlock,
    TimedOut,
    UnexpectedEof,
    BrokenPipe,
    ConnectionReset,
    ConnectionAborted,
    Other,
}

/// A failed input or output operation: its kind, its message, and the code of the
/// operating system where it has one.
#[derive(Debug)]
pub struct IoFailure {
    pub kind: FailureKind,
    pub message: String,
    pub os_code: Option<i32>,
}

/// What came of reading from an upstream server.
#[derive(Debug)]
pub enum UpstreamRead {
    /// The server has closed the connection.
    Eof,
    /// These bytes came.
    Data(Vec<u8>),
    Failed(IoFailure),
}

/// Why the answer of an upstream server cannot be passed on.
#[derive(Clone, Copy, Debug, PartialEq, Eq, Structural)]
pub enum HeadError {
    /// The head is not UTF-8.
    InvalidHeaders,
    /// A header line holds no colon.
    InvalidHeader,
}

impl HeadError {
    /// The error in words.
    pub open spec fn text(self) -> Seq<char> {
        match self {
            HeadError::InvalidHeaders => "invalid upstream response headers"@,
            HeadError::InvalidHeader => "invalid upstream header"@,
        }
    }

    /// Puts the error in words.
    pub fn message(&self) -> (r: &'static str)
        ensures
            r@ == self.text(),
    {
        match self {
            HeadError::InvalidHeaders => "invalid upstream response headers",
            HeadError::InvalidHeader => "invalid upstream header",
        }
    }
}

/// Whether a header is about one connection only, by its name.
pub open spec fn is_hop_by_hop(name: Seq<char>) -> bool {
    ||| text::same_ignoring_case(name, "connection"@)
    ||| text::same_ignoring_case(name, "keep-alive"@)
    ||| text::same_ignoring_case(name, "proxy-connection"@)
}

/// The number that the first `Content-Length` among `lines` announces; nothing where
/// there is none or it is not a number.
pub open spec fn length_among(lines: Seq<Seq<char>>) -> Option<nat>
    decreases lines.len(),
{
    if lines.len() == 0 {
        None
    } else {
        match text::split_once(lines[0], ':') {
            Some((name, value)) if text::same_ignoring_case(
                text::trim(name),
                "content-length"@,
            ) => number::number(text::trim(value), usize::MAX as nat),
            _ => length_among(lines.skip(1)),
        }
    }
}

/// The length of the body that the head of an answer announces.
pub open spec fn announced_length(head: Seq<u8>) -> Option<nat> {
    if valid_utf8(head) {
        length_among(text::split_crlf(decode_utf8(head)).skip(1))
    } else {
        None
    }
}

/// The header lines that are passed on to a client: all but empty lines and those
/// about one connection only. Nothing where a line holds no colon.
pub open spec fn passed_to_client(lines: Seq<Seq<char>>) -> Option<Seq<char>>
    decreases lines.len(),
{
    if lines.len() == 0 {
        Some(Seq::empty())
    } else if lines[0].len() == 0 {
        passed_to_client(lines.skip(1))
    } else {
        match (text::split_once(lines[0], ':'), passed_to_client(lines.skip(1))) {
            (Some((name, value)), Some(rest)) => if is_hop_by_hop(text::trim(name)) {
                Some(rest)
            } else {
                Some(text::trim(name) + ": "@ + text::trim(value) + "\r\n"@ + rest)
            },
            _ => None,
        }
    }
}

/// The head of an answer as the client gets it: with the headers for the connection
/// to the client in place of those for the connection to the upstream server.
pub open spec fn rewritten(head: Seq<u8>, runtime: RuntimeConfig, keep_alive: bool) -> Result<
    Seq<char>,
    HeadError,
> {
    if !valid_utf8(head) {
        Err(HeadError::InvalidHeaders)
    } else {
        let lines = text::split_crlf(decode_utf8(head));
        match passed_to_client(lines.skip(1)) {
            None => Err(HeadError::InvalidHeader),
            Some(headers) => Ok(
                lines[0] + "\r\n"@ + headers + response::connection_text(runtime, keep_alive)
                    + "\r\n"@,
            ),
        }
    }
}

/// Whether a header of a request is about the connection to this server only.
pub open spec fn stays_here(name: Seq<char>) -> bool {
    ||| text::same_ignoring_case(name, "host"@)
    ||| text::same_ignoring_case(name, "connection"@)
    ||| text::same_ignoring_case(name, "proxy-connection"@)
}

/// The header lines of a request that are passed on to an upstream server.
pub open spec fn passed_to_upstream(headers: Seq<(Seq<char>, Seq<char>)>) -> Seq<char>
    decreases headers.len(),
{
    if headers.len() == 0 {
        Seq::empty()
    } else if stays_here(headers.last().0) {
        passed_to_upstream(headers.drop_last())
    } else {
        passed_to_upstream(headers.drop_last()) + headers.last().0 + ": "@ + headers.last().1
            + "\r\n"@
    }
}

/// The host that the client asked for.
pub open spec fn client_host(request: request::RequestView) -> Seq<char> {
    match request::header(request.headers, "host"@) {
        Some(host) => host,
        None => ""@,
    }
}

/// The head of a request as an upstream server gets it, with the empty line that
/// ends it.
pub open spec fn forwarded_head(request: request::RequestView, rule: rule::ProxyRuleView) -> Seq<
    char,
> {
    request.method + " "@ + rule::upstream_target(request.target, rule) + " "@ + request.version
        + "\r\nHost: "@ + rule.upstream.authority() + "\r\nX-Forwarded-Host: "@ + client_host(
        request,
    ) + "\r\nX-Forwarded-Proto: "@ + request::client_protocol(request) + "\r\n"@
        + passed_to_upstream(request.headers) + "Connection: close\r\n\r\n"@
}

/// The bytes of a request as an upstream server gets it.
pub open spec fn forwarded(request: request::RequestView, rule: rule::ProxyRuleView) -> Seq<u8> {
    encode_utf8(forwarded_head(request, rule)) + request.body
}

/// Whether a failure says that the server closed a TLS connection without saying so.
pub open spec fn is_bare_tls_close(kind: FailureKind, message: Seq<char>) -> bool {
    kind == FailureKind::UnexpectedEof && text::has_part(
        message,
        "peer closed connection without sending TLS close_notify"@,
    )
}

/// Whether the body can be taken as complete after `copied` bytes of it: all that
/// were announced, or any where no length was.
pub open spec fn body_complete(copied: nat, content_length: Option<usize>) -> bool {
    match content_length {
        Some(expected) => copied >= expected,
        None => copied > 0,
    }
}

/// The length of the body that the head of an answer announces.
pub fn upstream_content_length(header_bytes: &[u8]) -> (r: Option<usize>)
    ensures
        r is Some <==> announced_length(header_bytes@) is Some,
        r matches Some(n) ==> announced_length(header_bytes@) == Some(n as nat),
{
    let head = match bytes::decode(header_bytes) {
        Some(head) => head,
        None => {
            return None;
        },
    };
    let name_sought = text::chars_of("content-length");
    let lines = text::cut_crlf(head.as_slice());
    let ghost all = text::texts(lines@);
    let mut i: usize = 1;
    proof {
        request::lemma_split_crlf_some(head@);
    }
    while i < lines.len()
        invariant
            1 <= i <= lines.len(),
            name_sought@ == "content-length"@,
            all == text::texts(lines@),
            announced_length(header_bytes@) == length_among(all.skip(i as int)),
        decreases lines.len() - i,
    {
        let ghost rest = all.skip(i as int);
        assert(rest[0] == lines@[i as int]@);
        assert(rest.skip(1) == all.skip(i + 1));
        match text::cut(lines[i], ':') {
            Some((name, value)) => {
                if text::equals_ignoring_case(text::trimmed(name), name_sought.as_slice()) {
                    return number::read_usize(text::trimmed(value));
                }
            },
            None => {},
        }
        i = i + 1;
    }
    None
}

/// Whether a header is about one connection only.
pub fn is_hop_by_hop_header(name: &str) -> (r: bool)
    ensures
        r == is_hop_by_hop(name@),
{
    text::is_word(name, "connection") || text::is_word(name, "keep-alive") || text::is_word(
        name,
        "proxy-connection",
    )
}

/// Writes the head of an answer as the client gets it.
pub fn rewrite_proxy_response_head(
    header_bytes: &[u8],
    runtime: &RuntimeConfig,
    keep_alive: bool,
) -> (r: Result<Vec<u8>, HeadError>)
    ensures
        match r {
            Ok(out) => rewritten(header_bytes@, *runtime, keep_alive) is Ok && out@ == encode_utf8(
                rewritten(header_bytes@, *runtime, keep_alive)->Ok_0,
            ),
            Err(error) => rewritten(header_bytes@, *runtime, keep_alive) == Err::<
                Seq<char>,
                HeadError,
            >(error),
        },
{
    let head = match bytes::decode(header_bytes) {
        Some(head) => head,
        None => {
            return Err(HeadError::InvalidHeaders);
        },
    };
    let lines = text::cut_crlf(head.as_slice());
    let ghost all = text::texts(lines@);
    proof {
        request::lemma_split_crlf_some(head@);
        assert(all[0] == lines@[0]@);
    }
    let mut out = text::string_of(lines[0]);
    out.append("\r\n");
    let ghost start = out@;
    let mut i: usize = 1;
    proof {
        if let Some(more) = passed_to_client(all.skip(1)) {
            assert(start + more == out@ + more);
        }
    }
    while i < lines.len()
        invariant
            1 <= i <= lines.len(),
            all == text::texts(lines@),
            all == text::split_crlf(head@),
            head@ == decode_utf8(header_bytes@),
            valid_utf8(header_bytes@),
            passed_to_client(all.skip(1)) is Some <==> passed_to_client(all.skip(i as int)) is Some,
            passed_to_client(all.skip(i as int)) matches Some(more) ==> start + passed_to_client(
                all.skip(1),
            )->0 == out@ + more,
        decreases lines.len() - i,
    {
        let line = lines[i];
        let ghost rest = all.skip(i as int);
        assert(rest[0] == line@);
        assert(rest.skip(1) == all.skip(i + 1));
        if line.len() > 0 {
            let (name, value) = match text::cut(line, ':') {
                Some(parts) => parts,
                None => {
                    return Err(HeadError::InvalidHeader);
                },
            };
            let name = text::string_of(text::trimmed(name));
            if !is_hop_by_hop_header(name.as_str()) {
                let ghost done = out@;
                out.append(name.as_str());
                out.append(": ");
                out.append(text::string_of(text::trimmed(value)).as_str());
                out.append("\r\n");
                proof {
                    if let Some(more) = passed_to_client(rest.skip(1)) {
                        assert(done + (name@ + ": "@ + text::trim(value@) + "\r\n"@ + more) == out@
                            + more);
                    }
                }
            }
        }
        i = i + 1;
    }
    proof {
        assert(all.skip(i as int).len() == 0);
        assert(out@ + Seq::<char>::empty() == out@);
    }
    out.append(response::connection_headers(runtime, keep_alive).as_str());
    out.append("\r\n");
    Ok(bytes::encode(out.as_str()))
}

/// Writes a request as an upstream server gets it: under the target that the rule
/// gives it, with the host of the server, and with a note of who the client asked.
pub fn write_proxy_request(request: &Request, proxy: &ProxyRule) -> (r: Vec<u8>)
    ensures
        r@ == forwarded(request@, proxy@),
{
    let mut out = request.method.clone();
    out.append(" ");
    out.append(rule::proxied_target(request.target.as_str(), proxy).as_str());
    out.append(" ");
    out.append(request.version.as_str());
    out.append("\r\nHost: ");
    out.append(proxy.upstream.authority_header().as_str());
    out.append("\r\nX-Forwarded-Host: ");
    match request::header_value(request, "host") {
        Some(host) => {
            out.append(host);
        },
        None => {
            out.append("");
        },
    }
    out.append("\r\nX-Forwarded-Proto: ");
    out.append(request::forwarded_proto(request));
    out.append("\r\n");
    let ghost start = out@;
    let ghost views = request@.headers;
    let mut i: usize = 0;
    assert(views.take(0) == Seq::<(Seq<char>, Seq<char>)>::empty());
    while i < request.headers.len()
        invariant
            i <= request.headers.len(),
            views == request@.headers,
            out@ == start + passed_to_upstream(views.take(i as int)),
        decreases request.headers.len() - i,
    {
        proof {
            assert(views.take(i + 1).drop_last() == views.take(i as int));
            assert(views[i as int] == (
                request.headers@[i as int].0@,
                request.headers@[i as int].1@,
            ));
        }
        let name = request.headers[i].0.as_str();
        if !(text::is_word(name, "host") || text::is_word(name, "connection") || text::is_word(
            name,
            "proxy-connection",
        )) {
            let ghost done = passed_to_upstream(views.take(i as int));
            out.append(name);
            out.append(": ");
            out.append(request.headers[i].1.as_str());
            out.append("\r\n");
            assert(out@ == start + (done + name@ + ": "@ + views[i as int].1 + "\r\n"@));
        }
        i = i + 1;
    }
    assert(views.take(i as int) == views);
    out.append("Connection: close\r\n\r\n");
    assert(out@ == forwarded_head(request@, proxy@));
    let mut sent = bytes::encode(out.as_str());
    bytes::append(&mut sent, request.body.as_slice());
    sent
}

/// Whether a failure says that the server closed a TLS connection without saying so.
pub fn is_tls_close_notify_eof(err: &IoFailure) -> (r: bool)
    ensures
        r == is_bare_tls_close(err.kind, err.message@),
{
    if err.kind != FailureKind::UnexpectedEof {
        return false;
    }
    let message = text::chars_of(err.message.as_str());
    let part = text::chars_of("peer closed connection without sending TLS close_notify");
    text::contains_part(message.as_slice(), part.as_slice())
}

/// Whether a failure after `copied` bytes of the body is as good as its end.
pub fn should_treat_upstream_eof_as_clean_close(
    err: &IoFailure,
    copied: usize,
    content_length: Option<usize>,
) -> (r: bool)
    ensures
        r == (is_bare_tls_close(err.kind, err.message@) && body_complete(
            copied as nat,
            content_length,
        )),
{
    if !is_tls_close_notify_eof(err) {
        return false;
    }
    match content_length {
        Some(expected) => copied >= expected,
        None => copied > 0,
    }
}

/// Whether a code of the operating system says that the process or the system has no file
/// descriptor left.
pub open spec fn no_descriptor_left(code: Option<i32>) -> bool {
    code == Some(23i32) || code == Some(24i32)
}

/// Whether a failure says that the process or the system has no file descriptor left.
pub fn is_fd_exhausted(err: &IoFailure) -> (r: bool)
    ensures
        r == no_descriptor_left(err.os_code),
{
    match err.os_code {
        Some(code) => code == 23 || code == 24,
        None => false,
    }
}

/// How much of a body has been passed on, and how much of it was announced.
#[derive(Clone, Copy, Debug, PartialEq, Eq, Structural)]
pub struct BodyCopy {
    pub copied: usize,
    pub content_length: Option<usize>,
}

impl BodyCopy {
    /// The count after `n` more bytes; it stays at the largest number where they are
    /// too many to count.
    pub open spec fn plus(self, n: nat) -> BodyCopy {
        BodyCopy {
            copied: if self.copied + n <= usize::MAX {
                (self.copied + n) as usize
            } else {
                usize::MAX
            },
            ..self
        }
    }

    /// Whether all that was announced has been passed on.
    pub open spec fn has_all(self) -> bool {
        self.content_length matches Some(expected) && self.copied >= expected
    }

    /// Whether all that was announced has been passed on.
    pub fn is_complete(&self) -> (r: bool)
        ensures
            r == self.has_all(),
    {
        match self.content_length {
            Some(expected) => self.copied >= expected,
            None => false,
        }
    }
}

/// What to do after reading from an upstream server whose head has come.
#[derive(Debug)]
pub enum CopyStep {
    /// The body is complete.
    Done,
    /// Pass these bytes on. The body is complete with them if they are the last;
    /// otherwise read again.
    Pass { bytes: Vec<u8>, last: bool },
    Failed(IoFailure),
}

/// Takes what was read of a body and says what to do with it.
pub fn copy_upstream_body(copy: &mut BodyCopy, read: UpstreamRead) -> (r: CopyStep)
    ensures
        match read {
            UpstreamRead::Eof => r is Done && *final(copy) == *old(copy),
            UpstreamRead::Data(data) => {
                &&& *final(copy) == old(copy).plus(data@.len())
                &&& r matches CopyStep::Pass { bytes, last }
                &&& bytes@ == data@
                &&& last == final(copy).has_all()
            },
            UpstreamRead::Failed(failure) => {
                &&& *final(copy) == *old(copy)
                &&& if is_bare_tls_close(failure.kind, failure.message@) && body_complete(
                    old(copy).copied as nat,
                    old(copy).content_length,
                ) {
                    r is Done
                } else {
                    r == CopyStep::Failed(failure)
                }
            },
        },
{
    match read {
        UpstreamRead::Eof => CopyStep::Done,
        UpstreamRead::Data(bytes) => {
            copy.copied = copy.copied.saturating_add(bytes.len());
            CopyStep::Pass { bytes, last: copy.is_complete() }
        },
        UpstreamRead::Failed(failure) => {
            if should_treat_upstream_eof_as_clean_close(
                &failure,
                copy.copied,
                copy.content_length,
            ) {
                CopyStep::Done
            } else {
                CopyStep::Failed(failure)
            }
        },
    }
}

/// Why an exchange with an upstream server failed.
#[derive(Debug)]
pub enum ProxyError {
    /// The server closed the connection before the head of its answer was complete.
    ClosedEarly,
    /// The head of the answer cannot be passed on.
    Head(HeadError),
    Io(IoFailure),
}

impl ProxyError {
    /// The error in words.
    pub open spec fn text(self) -> Seq<char> {
        match self {
            ProxyError::ClosedEarly => "upstream closed before sending headers"@,
            ProxyError::Head(error) => error.text(),
            ProxyError::Io(failure) => failure.message@,
        }
    }

    /// Puts the error in words.
    pub fn message(&self) -> (r: &str)
        ensures
            r@ == self.text(),
    {
        match self {
            ProxyError::ClosedEarly => "upstream closed before sending headers",
            ProxyError::Head(error) => error.message(),
            ProxyError::Io(failure) => failure.message.as_str(),
        }
    }
}

/// How far an exchange with an upstream server has come: what it has sent while the
/// head is not complete, and what has been passed on of the body after that.
#[derive(Debug)]
pub struct Exchange {
    pub received: Vec<u8>,
    pub body: Option<BodyCopy>,
}

/// What an `Exchange` holds.
#[verifier::ext_equal]
pub struct ExchangeView {
    pub received: Seq<u8>,
    pub body: Option<BodyCopy>,
}

impl View for Exchange {
    type V = ExchangeView;

    open spec fn view(&self) -> ExchangeView {
        ExchangeView { received: self.received@, body: self.body }
    }
}

/// What to do after reading from an upstream server.
#[derive(Debug)]
pub enum ExchangeStep {
    /// Read again.
    Read,
    /// The head of the answer to the client, and the first bytes of its body. Read again.
    Begin { head: Vec<u8>, body: Vec<u8> },
    /// The answer is complete, without a body.
    Whole { head: Vec<u8> },
    /// More bytes of the body. The answer is complete with them if they are the
    /// last; otherwise read again.
    Pass { bytes: Vec<u8>, last: bool },
    /// The answer is complete.
    Done,
    Failed(ProxyError),
}

/// What an `ExchangeStep` says.
#[verifier::ext_equal]
pub enum StepView {
    Read,
    Begin { head: Seq<u8>, body: Seq<u8> },
    Whole { head: Seq<u8> },
    Pass { bytes: Seq<u8>, last: bool },
    Done,
    Failed(ProxyError),
}

impl View for ExchangeStep {
    type V = StepView;

    open spec fn view(&self) -> StepView {
        match *self {
            ExchangeStep::Read => StepView::Read,
            ExchangeStep::Begin { head, body } => StepView::Begin { head: head@, body: body@ },
            ExchangeStep::Whole { head } => StepView::Whole { head: head@ },
            ExchangeStep::Pass { bytes, last } => StepView::Pass { bytes: bytes@, last },
            ExchangeStep::Done => StepView::Done,
            ExchangeStep::Failed(error) => StepView::Failed(error),
        }
    }
}

/// A length as the machine counts it.
pub open spec fn counted(n: Option<nat>) -> Option<usize> {
    match n {
        Some(n) => Some(n as usize),
        None => None,
    }
}

impl ExchangeView {
    /// Where an exchange starts.
    pub open spec fn start() -> ExchangeView {
        ExchangeView { received: Seq::empty(), body: None }
    }

    /// Where the exchange stands after `data` has come, and what is to be done. With
    /// `buffered`, an answer that announces an empty body is complete with its head.
    pub open spec fn after(
        self,
        data: Seq<u8>,
        runtime: RuntimeConfig,
        keep_alive: bool,
        buffered: bool,
    ) -> (ExchangeView, StepView) {
        match self.body {
            Some(copy) => (
                ExchangeView { body: Some(copy.plus(data.len())), ..self },
                StepView::Pass { bytes: data, last: copy.plus(data.len()).has_all() },
            ),
            None => {
                let all = self.received + data;
                let held = ExchangeView { received: all, body: None };
                match bytes::head_end(all) {
                    None => (held, StepView::Read),
                    Some(end) => {
                        let head = all.take(end as int);
                        let rest = all.skip(end as int + 4);
                        let length = counted(announced_length(head));
                        match rewritten(head, runtime, keep_alive) {
                            Err(error) => (held, StepView::Failed(ProxyError::Head(error))),
                            Ok(head) => if buffered && length == Some(0usize) {
                                (held, StepView::Whole { head: encode_utf8(head) })
                            } else {
                                let copy = (BodyCopy { copied: 0, content_length: length }).plus(
                                    rest.len(),
                                );
                                (
                                    ExchangeView { received: Seq::empty(), body: Some(copy) },
                                    StepView::Begin { head: encode_utf8(head), body: rest },
                                )
                            },
                        }
                    },
                }
            },
        }
    }
}

impl Exchange {
    /// An exchange in which nothing has come yet.
    pub fn new() -> (r: Exchange)
        ensures
            r@ == ExchangeView::start(),
    {
        Exchange { received: Vec::new(), body: None }
    }

    /// Takes what was read and says what to do.
    fn step(
        &mut self,
        read: UpstreamRead,
        runtime: &RuntimeConfig,
        keep_alive: bool,
        buffered: bool,
    ) -> (r: ExchangeStep)
        ensures
            old(self)@.after_read(read, *runtime, keep_alive, buffered) == (final(self)@, r@),
    {
        if let Some(copy) = self.body {
            let mut copy = copy;
            let step = copy_upstream_body(&mut copy, read);
            self.body = Some(copy);
            return match step {
                CopyStep::Done => ExchangeStep::Done,
                CopyStep::Pass { bytes, last } => ExchangeStep::Pass { bytes, last },
                CopyStep::Failed(failure) => ExchangeStep::Failed(ProxyError::Io(failure)),
            };
        }
        let data = match read {
            UpstreamRead::Eof => {
                return ExchangeStep::Failed(ProxyError::ClosedEarly);
            },
            UpstreamRead::Failed(failure) => {
                return ExchangeStep::Failed(ProxyError::Io(failure));
            },
            UpstreamRead::Data(data) => data,
        };
        bytes::append(&mut self.received, data.as_slice());
        let end = match bytes::find_header_end(self.received.as_slice()) {
            Some(end) => end,
            None => {
                return ExchangeStep::Read;
            },
        };
        let upstream_head = text::take(self.received.as_slice(), end);
        let content_length = upstream_content_length(upstream_head);
        let head = match rewrite_proxy_response_head(upstream_head, runtime, keep_alive) {
            Ok(head) => head,
            Err(error) => {
                return ExchangeStep::Failed(ProxyError::Head(error));
            },
        };
        if buffered && content_length.is_some() && content_length.unwrap() == 0 {
            return ExchangeStep::Whole { head };
        }
        let tail = text::skip(self.received.as_slice(), end);
        let body = slice_to_vec(text::skip(tail, 4));
        assert(body@ == self.received@.skip(end as int + 4));
        self.received = Vec::new();
        self.body = Some(BodyCopy { copied: body.len(), content_length });
        ExchangeStep::Begin { head, body }
    }
}

impl ExchangeView {
    /// Where the exchange stands after `read`, and what is to be done.
    pub open spec fn after_read(
        self,
        read: UpstreamRead,
        runtime: RuntimeConfig,
        keep_alive: bool,
        buffered: bool,
    ) -> (ExchangeView, StepView) {
        match read {
            UpstreamRead::Data(data) => self.after(data@, runtime, keep_alive, buffered),
            UpstreamRead::Eof => (
                self,
                if self.body is Some {
                    StepView::Done
                } else {
                    StepView::Failed(ProxyError::ClosedEarly)
                },
            ),
            UpstreamRead::Failed(failure) => (
                self,
                if self.body is Some && is_bare_tls_close(failure.kind, failure.message@)
                    && body_complete(
                    self.body->0.copied as nat,
                    self.body->0.content_length,
                ) {
                    StepView::Done
                } else {
                    StepView::Failed(ProxyError::Io(failure))
                },
            ),
        }
    }
}

/// One step of an exchange whose answer is collected before any of it is sent.
pub fn proxy_request(
    exchange: &mut Exchange,
    read: UpstreamRead,
    runtime: &RuntimeConfig,
    keep_alive: bool,
) -> (r: ExchangeStep)
    ensures
        old(exchange)@.after_read(read, *runtime, keep_alive, true) == (final(exchange)@, r@),
{
    exchange.step(read, runtime, keep_alive, true)
}

/// One step of an exchange whose answer is sent on as it comes.
pub fn proxy_request_streaming(
    exchange: &mut Exchange,
    read: UpstreamRead,
    runtime: &RuntimeConfig,
    keep_alive: bool,
) -> (r: ExchangeStep)
    ensures
        old(exchange)@.after_read(read, *runtime, keep_alive, false) == (final(exchange)@, r@),
{
    exchange.step(read, runtime, keep_alive, false)
}

/// What an exchange passes on where `chunks` come one after another and the server
/// then closes the connection; nothing where the exchange fails.
pub open spec fn passed_on(
    exchange: ExchangeView,
    chunks: Seq<Seq<u8>>,
    runtime: RuntimeConfig,
    keep_alive: bool,
    buffered: bool,
) -> Option<Seq<u8>>
    decreases chunks.len(),
{
    if chunks.len() == 0 {
        if exchange.body is Some {
            Some(Seq::empty())
        } else {
            None
        }
    } else {
        let (next, step) = exchange.after(chunks[0], runtime, keep_alive, buffered);
        let rest = passed_on(next, chunks.skip(1), runtime, keep_alive, buffered);
        match step {
            StepView::Read => rest,
            StepView::Begin { head, body } => match rest {
                Some(more) => Some(head + body + more),
                None => None,
            },
            StepView::Whole { head } => Some(head),
            StepView::Pass { bytes, last } => if last {
                Some(bytes)
            } else {
                match rest {
                    Some(more) => Some(bytes + more),
                    None => None,
                }
            },
            _ => None,
        }
    }
}

/// A number that is announced can be counted.
proof fn lemma_length_counts(lines: Seq<Seq<char>>)
    ensures
        length_among(lines) matches Some(n) ==> n <= usize::MAX,
    decreases lines.len(),
{
    if lines.len() > 0 {
        lemma_length_counts(lines.skip(1));
    }
}

/// Once the head has come, the bytes of the body are passed on as they come.
proof fn lemma_body_passed_on(
    exchange: ExchangeView,
    chunks: Seq<Seq<u8>>,
    runtime: RuntimeConfig,
    keep_alive: bool,
    buffered: bool,
)
    requires
        exchange.body is Some,
        exchange.body->0.content_length matches Some(n) ==> exchange.body->0.copied + bytes::concat(
            chunks,
        ).len() <= n,
    ensures
        passed_on(exchange, chunks, runtime, keep_alive, buffered) == Some(bytes::concat(chunks)),
    decreases chunks.len(),
{
    if chunks.len() > 0 {
        let copy = exchange.body->0;
        let next = exchange.after(chunks[0], runtime, keep_alive, buffered).0;
        let rest = bytes::concat(chunks.skip(1));
        assert(bytes::concat(chunks) == chunks[0] + rest);
        if copy.plus(chunks[0].len()).has_all() {
            assert(rest.len() == 0);
            assert(chunks[0] + rest == chunks[0]);
        } else {
            lemma_body_passed_on(next, chunks.skip(1), runtime, keep_alive, buffered);
        }
    }
}

/// However the head of an answer is cut into pieces, the exchange passes on the same.
proof fn lemma_answer_passed_on(
    exchange: ExchangeView,
    chunks: Seq<Seq<u8>>,
    runtime: RuntimeConfig,
    keep_alive: bool,
    buffered: bool,
)
    requires
        exchange.body is None,
        bytes::head_end(exchange.received) is None,
        is_answer(exchange.received + bytes::concat(chunks), runtime, keep_alive),
    ensures
        passed_on(exchange, chunks, runtime, keep_alive, buffered) == Some(
            answer_for_client(exchange.received + bytes::concat(chunks), runtime, keep_alive),
        ),
    decreases chunks.len(),
{
    let all = exchange.received + bytes::concat(chunks);
    if chunks.len() == 0 {
        assert(all == exchange.received);
    } else {
        let held = exchange.received + chunks[0];
        let more = bytes::concat(chunks.skip(1));
        let next = exchange.after(chunks[0], runtime, keep_alive, buffered).0;
        assert(all == held + more);
        if bytes::head_end(held) is None {
            lemma_answer_passed_on(next, chunks.skip(1), runtime, keep_alive, buffered);
        } else {
            bytes::lemma_head_end(held, 0);
            bytes::lemma_head_end_stays(held, more, 0);
            let end = bytes::head_end(held)->0;
            assert(all.take(end as int) == held.take(end as int));
            assert(all.skip(end as int + 4) == held.skip(end as int + 4) + more);
            let head = held.take(end as int);
            lemma_length_counts(text::split_crlf(decode_utf8(head)).skip(1));
            let client_head = encode_utf8(rewritten(head, runtime, keep_alive)->Ok_0);
            if buffered && counted(announced_length(head)) == Some(0usize) {
                assert(all.skip(end as int + 4).len() == 0);
                assert(client_head + all.skip(end as int + 4) == client_head);
            } else {
                lemma_body_passed_on(next, chunks.skip(1), runtime, keep_alive, buffered);
                assert(client_head + held.skip(end as int + 4) + more == client_head + all.skip(
                    end as int + 4,
                ));
            }
        }
    }
}

/// Whether `sent` is an answer that can be passed on, with no more body than its head
/// announces.
pub open spec fn is_answer(sent: Seq<u8>, runtime: RuntimeConfig, keep_alive: bool) -> bool {
    bytes::head_end(sent) matches Some(end) && rewritten(
        sent.take(end as int),
        runtime,
        keep_alive,
    ) is Ok && (announced_length(sent.take(end as int)) matches Some(n) ==> sent.len() - end - 4
        <= n)
}

/// An answer as the client gets it: under its rewritten head, the body as it is.
pub open spec fn answer_for_client(
    sent: Seq<u8>,
    runtime: RuntimeConfig,
    keep_alive: bool,
) -> Seq<u8> {
    let end = bytes::head_end(sent)->0 as int;
    encode_utf8(rewritten(sent.take(end), runtime, keep_alive)->Ok_0) + sent.skip(end + 4)
}

/// However the network cuts an answer into pieces, the client gets its rewritten head
/// and then its body, byte for byte, whether the answer is collected first or sent on
/// as it comes.
pub proof fn law_pieces_do_not_matter(
    chunks: Seq<Seq<u8>>,
    runtime: RuntimeConfig,
    keep_alive: bool,
    buffered: bool,
)
    requires
        is_answer(bytes::concat(chunks), runtime, keep_alive),
    ensures
        passed_on(ExchangeView::start(), chunks, runtime, keep_alive, buffered) == Some(
            answer_for_client(bytes::concat(chunks), runtime, keep_alive),
        ),
{
    assert(Seq::<u8>::empty() + bytes::concat(chunks) == bytes::concat(chunks));
    lemma_answer_passed_on(ExchangeView::start(), chunks, runtime, keep_alive, buffered);
}

/// Whether an exchange is complete by the time that the last of `chunks` has come,
/// whatever the server does then.
pub open spec fn completes(
    exchange: ExchangeView,
    chunks: Seq<Seq<u8>>,
    runtime: RuntimeConfig,
    keep_alive: bool,
    buffered: bool,
) -> bool
    decreases chunks.len(),
{
    if chunks.len() == 0 {
        false
    } else {
        let (next, step) = exchange.after(chunks[0], runtime, keep_alive, buffered);
        let later = completes(next, chunks.skip(1), runtime, keep_alive, buffered);
        match step {
            StepView::Read => later,
            StepView::Begin { .. } => later,
            StepView::Whole { .. } => true,
            StepView::Pass { last, .. } => last || later,
            _ => false,
        }
    }
}

/// A body is complete with the read that brings the last of what was announced.
proof fn lemma_body_completes(
    exchange: ExchangeView,
    chunks: Seq<Seq<u8>>,
    runtime: RuntimeConfig,
    keep_alive: bool,
    buffered: bool,
)
    requires
        chunks.len() > 0,
        exchange.body is Some,
        exchange.body->0.content_length matches Some(n) && exchange.body->0.copied + bytes::concat(
            chunks,
        ).len() == n,
    ensures
        completes(exchange, chunks, runtime, keep_alive, buffered),
    decreases chunks.len(),
{
    let copy = exchange.body->0;
    let next = exchange.after(chunks[0], runtime, keep_alive, buffered).0;
    assert(bytes::concat(chunks) == chunks[0] + bytes::concat(chunks.skip(1)));
    if !copy.plus(chunks[0].len()).has_all() {
        assert(bytes::concat(chunks.skip(1)).len() > 0);
        lemma_body_completes(next, chunks.skip(1), runtime, keep_alive, buffered);
    }
}

/// The same while the head has not come.
proof fn lemma_answer_completes(
    exchange: ExchangeView,
    chunks: Seq<Seq<u8>>,
    runtime: RuntimeConfig,
    keep_alive: bool,
    buffered: bool,
)
    requires
        exchange.body is None,
        bytes::head_end(exchange.received) is None,
        is_whole_answer(exchange.received + bytes::concat(chunks), runtime, keep_alive),
        (buffered && has_empty_body(exchange.received + bytes::concat(chunks))) || bytes::head_end(
            exchange.received + bytes::concat(chunks.drop_last()),
        ) is Some,
    ensures
        completes(exchange, chunks, runtime, keep_alive, buffered),
    decreases chunks.len(),
{
    let all = exchange.received + bytes::concat(chunks);
    if chunks.len() == 0 {
        assert(all == exchange.received);
    } else {
        let held = exchange.received + chunks[0];
        let more = bytes::concat(chunks.skip(1));
        let next = exchange.after(chunks[0], runtime, keep_alive, buffered).0;
        assert(all == held + more);
        let before = chunks.drop_last();
        if chunks.len() > 1 {
            assert(before.skip(1) == chunks.skip(1).drop_last());
            assert(exchange.received + bytes::concat(before) == held + bytes::concat(
                before.skip(1),
            ));
        } else {
            assert(exchange.received + bytes::concat(before) == exchange.received);
            assert(more.len() == 0);
            assert(held + more == held);
        }
        if bytes::head_end(held) is None {
            lemma_answer_completes(next, chunks.skip(1), runtime, keep_alive, buffered);
        } else {
            bytes::lemma_head_end(held, 0);
            bytes::lemma_head_end_stays(held, more, 0);
            let end = bytes::head_end(held)->0;
            let head = held.take(end as int);
            assert(all.take(end as int) == head);
            lemma_length_counts(text::split_crlf(decode_utf8(head)).skip(1));
            if !(buffered && counted(announced_length(head)) == Some(0usize)) {
                lemma_body_completes(next, chunks.skip(1), runtime, keep_alive, buffered);
            }
        }
    }
}

/// Whether `sent` is an answer that can be passed on, with as much body as its head
/// announces.
pub open spec fn is_whole_answer(sent: Seq<u8>, runtime: RuntimeConfig, keep_alive: bool) -> bool {
    bytes::head_end(sent) matches Some(end) && rewritten(
        sent.take(end as int),
        runtime,
        keep_alive,
    ) is Ok && announced_length(sent.take(end as int)) == Some((sent.len() - end - 4) as nat)
}

/// Whether `sent` is an answer that announces no body.
pub open spec fn has_empty_body(sent: Seq<u8>) -> bool {
    bytes::head_end(sent) matches Some(end) && announced_length(sent.take(end as int)) == Some(
        0nat,
    )
}

/// However the network cuts an answer into pieces, the exchange is over once the body
/// that was announced has come, as long as the last of it comes after the head: the
/// server need not close the connection. Where all of the body comes with the head, the
/// exchange reads once more, but for an answer that is collected first and announces no
/// body.
pub proof fn law_announced_body_completes(
    chunks: Seq<Seq<u8>>,
    runtime: RuntimeConfig,
    keep_alive: bool,
    buffered: bool,
)
    requires
        is_whole_answer(bytes::concat(chunks), runtime, keep_alive),
        (buffered && has_empty_body(bytes::concat(chunks))) || bytes::head_end(
            bytes::concat(chunks.drop_last()),
        ) is Some,
    ensures
        completes(ExchangeView::start(), chunks, runtime, keep_alive, buffered),
{
    bytes::lemma_head_end(bytes::concat(chunks), 0);
    assert(Seq::<u8>::empty() + bytes::concat(chunks) == bytes::concat(chunks));
    assert(Seq::<u8>::empty() + bytes::concat(chunks.drop_last()) == bytes::concat(
        chunks.drop_last(),
    ));
    lemma_answer_completes(ExchangeView::start(), chunks, runtime, keep_alive, buffered);
}

} // verus!
