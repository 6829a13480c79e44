//! Requests: how one is read out of the bytes of a connection, and what its
//! headers say.
use crate::bytes;
use crate::number;
use crate::text;
use vstd::prelude::*;
use vstd::slice::{slice_subrange, slice_to_vec};
use vstd::utf8::*;

verus! {

/// A request, head and body.
#[derive(Debug)]
pub struct Request {
    pub method: String,
    pub target: String,
    pub version: String,
    pub headers: Vec<(String, String)>,
    pub body: Vec<u8>,
}

/// What a `Request` holds.
#[verifier::ext_equal]
pub struct RequestView {
    pub method: Seq<char>,
    pub target: Seq<char>,
    pub version: Seq<char>,
    pub headers: Seq<(Seq<char>, Seq<char>)>,
    pub body: Seq<u8>,
}

/// The name and value of each header.
pub open spec fn header_views(headers: Seq<(String, String)>) -> Seq<(Seq<char>, Seq<char>)> {
    headers.map_values(|h: (String, String)| (h.0@, h.1@))
}

impl View for Request {
    type V = RequestView;

    open spec fn view(&self) -> RequestView {
        RequestView {
            method: self.method@,
            target: self.target@,
            version: self.version@,
            headers: header_views(self.headers@),
            body: self.body@,
        }
    }
}

/// Why bytes are not a request.
#[derive(Clone, Copy, Debug, PartialEq, Eq, Structural)]
pub enum RequestError {
    /// The head is not UTF-8.
    InvalidHeaders,
    /// The first line holds no word.
    MissingMethod,
    /// The first line holds one word only.
    MissingTarget,
    /// A header line holds no colon.
    InvalidHeader,
}

impl RequestError {
    /// The error in words.
    pub open spec fn text(self) -> Seq<char> {
        match self {
            RequestError::InvalidHeaders => "invalid request headers"@,
            RequestError::MissingMethod => "missing method"@,
            RequestError::MissingTarget => "missing target"@,
            RequestError::InvalidHeader => "invalid header"@,
        }
    }

    /// Puts the error in words.
    pub fn message(&self) -> (r: &'static str)
        ensures
            r@ == self.text(),
    {
        match self {
            RequestError::InvalidHeaders => "invalid request headers",
            RequestError::MissingMethod => "missing method",
            RequestError::MissingTarget => "missing target",
            RequestError::InvalidHeader => "invalid header",
        }
    }
}

/// The headers that `lines` spell, in order; empty lines are passed over. Nothing
/// where a line holds no colon.
pub open spec fn headers_in(lines: Seq<Seq<char>>) -> Option<Seq<(Seq<char>, Seq<char>)>>
    decreases lines.len(),
{
    if lines.len() == 0 {
        Some(Seq::empty())
    } else if lines[0].len() == 0 {
        headers_in(lines.skip(1))
    } else {
        match (text::split_once(lines[0], ':'), headers_in(lines.skip(1))) {
            (Some((name, value)), Some(rest)) => Some(
                seq![(text::trim(name), text::trim(value))] + rest,
            ),
            _ => None,
        }
    }
}

/// The position of the first header named `name`, the case of ASCII letters aside,
/// at or after `from`; the number of headers where there is none.
pub open spec fn header_at(
    headers: Seq<(Seq<char>, Seq<char>)>,
    name: Seq<char>,
    from: int,
) -> int
    decreases headers.len() - from,
{
    if from >= headers.len() {
        headers.len() as int
    } else if text::same_ignoring_case(headers[from].0, name) {
        from
    } else {
        header_at(headers, name, from + 1)
    }
}

/// The value of the first header named `name`, the case of ASCII letters aside.
pub open spec fn header(headers: Seq<(Seq<char>, Seq<char>)>, name: Seq<char>) -> Option<
    Seq<char>,
> {
    let k = header_at(headers, name, 0);
    if 0 <= k < headers.len() {
        Some(headers[k].1)
    } else {
        None
    }
}

/// The length of the body that `headers` announce: 0 where they announce none, or
/// none that is a number.
pub open spec fn body_length(headers: Seq<(Seq<char>, Seq<char>)>) -> nat {
    match header(headers, "content-length"@) {
        Some(value) => match number::number(value, usize::MAX as nat) {
            Some(n) => n,
            None => 0,
        },
        None => 0,
    }
}

/// The head of a request that `head` spells, with an empty body.
pub open spec fn head_of(head: Seq<char>) -> Result<RequestView, RequestError> {
    let lines = text::split_crlf(head);
    let words = text::words(lines[0]);
    if words.len() == 0 {
        Err(RequestError::MissingMethod)
    } else if words.len() == 1 {
        Err(RequestError::MissingTarget)
    } else {
        match headers_in(lines.skip(1)) {
            None => Err(RequestError::InvalidHeader),
            Some(headers) => Ok(
                RequestView {
                    method: words[0],
                    target: words[1],
                    version: if words.len() > 2 {
                        words[2]
                    } else {
                        "HTTP/1.1"@
                    },
                    headers,
                    body: Seq::empty(),
                },
            ),
        }
    }
}

/// The request at the start of `buffer`, and how many bytes it takes there; nothing
/// while the head has not ended or part of the body is still to come.
pub open spec fn request_in(buffer: Seq<u8>) -> Result<Option<(RequestView, nat)>, RequestError> {
    match bytes::head_end(buffer) {
        None => Ok(None),
        Some(end) => if !valid_utf8(buffer.take(end as int)) {
            Err(RequestError::InvalidHeaders)
        } else {
            match head_of(decode_utf8(buffer.take(end as int))) {
                Err(error) => Err(error),
                Ok(head) => {
                    let total = end + 4 + body_length(head.headers);
                    if buffer.len() < total {
                        Ok(None)
                    } else {
                        Ok(
                            Some(
                                (
                                    RequestView {
                                        body: buffer.subrange(end as int + 4, total as int),
                                        ..head
                                    },
                                    total,
                                ),
                            ),
                        )
                    }
                },
            }
        },
    }
}

/// A request that has been read is the same whatever bytes follow it, and so is an
/// error.
pub proof fn law_request_stays(buffer: Seq<u8>, more: Seq<u8>)
    requires
        request_in(buffer) != Ok::<Option<(RequestView, nat)>, RequestError>(None),
    ensures
        request_in(buffer + more) == request_in(buffer),
{
    bytes::lemma_head_end(buffer, 0);
    bytes::lemma_head_end_stays(buffer, more, 0);
    let end = bytes::head_end(buffer)->0;
    assert((buffer + more).take(end as int) == buffer.take(end as int));
    if valid_utf8(buffer.take(end as int)) && head_of(decode_utf8(buffer.take(end as int))) is Ok {
        let head = head_of(decode_utf8(buffer.take(end as int)))->Ok_0;
        let total = end + 4 + body_length(head.headers);
        assert((buffer + more).subrange(end as int + 4, total as int) == buffer.subrange(
            end as int + 4,
            total as int,
        ));
    }
}

/// A request never takes more bytes than there are, and takes at least the empty
/// line that ends its head.
pub proof fn law_request_fits(buffer: Seq<u8>)
    ensures
        request_in(buffer) matches Ok(Some((request, used))) ==> {
            &&& 4 <= used <= buffer.len()
            &&& request.body.len() == body_length(request.headers)
            &&& request.body == buffer.subrange(used - request.body.len(), used as int)
        },
{
    bytes::lemma_head_end(buffer, 0);
}

impl Request {
    /// Reads the request at the start of `buffer`, and says how many bytes it takes
    /// there. `Ok(None)` asks for more bytes.
    pub fn parse_from_buffer(buffer: &[u8]) -> (r: Result<Option<(Request, usize)>, RequestError>)
        ensures
            match r {
                Err(error) => request_in(buffer@) == Err::<
                    Option<(RequestView, nat)>,
                    RequestError,
                >(error),
                Ok(None) => request_in(buffer@) == Ok::<
                    Option<(RequestView, nat)>,
                    RequestError,
                >(None),
                Ok(Some((request, used))) => request_in(buffer@) == Ok::<
                    Option<(RequestView, nat)>,
                    RequestError,
                >(Some((request@, used as nat))) && used <= buffer@.len(),
            },
    {
        let end = match bytes::find_header_end(buffer) {
            Some(end) => end,
            None => {
                return Ok(None);
            },
        };
        let head = match bytes::decode(text::take(buffer, end)) {
            Some(head) => head,
            None => {
                return Err(RequestError::InvalidHeaders);
            },
        };
        let lines = text::cut_crlf(head.as_slice());
        proof {
            lemma_split_crlf_some(head@);
            assert(text::texts(lines@)[0] == lines@[0]@);
        }
        let words = text::cut_words(lines[0]);
        let ghost word_texts = text::texts(words@);
        if words.len() == 0 {
            return Err(RequestError::MissingMethod);
        }
        assert(word_texts[0] == words@[0]@);
        if words.len() == 1 {
            return Err(RequestError::MissingTarget);
        }
        assert(word_texts[1] == words@[1]@);
        let method = text::string_of(words[0]);
        let target = text::string_of(words[1]);
        let version: String = if words.len() > 2 {
            assert(word_texts[2] == words@[2]@);
            text::string_of(words[2])
        } else {
            "HTTP/1.1".to_owned()
        };
        let rest = text::skip(lines.as_slice(), 1);
        assert(text::texts(rest@) == text::split_crlf(head@).skip(1));
        let headers = match read_headers(rest) {
            Some(headers) => headers,
            None => {
                return Err(RequestError::InvalidHeader);
            },
        };
        let length = read_body_length(&headers);
        if buffer.len() - end - 4 < length {
            return Ok(None);
        }
        let total = end + 4 + length;
        let body = slice_to_vec(slice_subrange(buffer, end + 4, total));
        Ok(Some((Request { method, target, version, headers, body }, total)))
    }
}

/// A text has at least one part.
pub proof fn lemma_split_crlf_some(s: Seq<char>)
    ensures
        text::split_crlf(s).len() > 0,
{
}

/// Reads the header lines of a message.
fn read_headers(lines: &[&[char]]) -> (r: Option<Vec<(String, String)>>)
    ensures
        r is Some <==> headers_in(text::texts(lines@)) is Some,
        r matches Some(headers) ==> headers_in(text::texts(lines@)) == Some(header_views(headers@)),
{
    let ghost all = text::texts(lines@);
    let mut headers: Vec<(String, String)> = Vec::new();
    let mut i: usize = 0;
    proof {
        assert(all.skip(0) == all);
        match headers_in(all) {
            Some(more) => {
                assert(header_views(headers@) + more == more);
            },
            None => {},
        }
    }
    while i < lines.len()
        invariant
            i <= lines.len(),
            all == text::texts(lines@),
            headers_in(all) is Some <==> headers_in(all.skip(i as int)) is Some,
            headers_in(all.skip(i as int)) matches Some(more) ==> headers_in(all) == Some(
                header_views(headers@) + more,
            ),
        decreases lines.len() - i,
    {
        let line = lines[i];
        let ghost rest = all.skip(i as int);
        assert(rest[0] == line@);
        assert(rest.skip(1) == all.skip(i + 1));
        if line.len() > 0 {
            match text::cut(line, ':') {
                None => {
                    return None;
                },
                Some((name, value)) => {
                    let pair = (
                        text::string_of(text::trimmed(name)),
                        text::string_of(text::trimmed(value)),
                    );
                    let ghost done = header_views(headers@);
                    headers.push(pair);
                    proof {
                        assert(header_views(headers@) == done.push((pair.0@, pair.1@)));
                        match headers_in(rest.skip(1)) {
                            Some(more) => {
                                assert(done + (seq![(pair.0@, pair.1@)] + more) == header_views(
                                    headers@,
                                ) + more);
                            },
                            None => {},
                        }
                    }
                },
            }
        }
        i = i + 1;
    }
    proof {
        assert(all.skip(i as int).len() == 0);
        assert(header_views(headers@) + Seq::<(Seq<char>, Seq<char>)>::empty() == header_views(
            headers@,
        ));
    }
    Some(headers)
}

/// The value of the first header named `name`, the case of ASCII letters aside.
fn lookup<'a>(headers: &'a Vec<(String, String)>, name: &str) -> (r: Option<&'a str>)
    ensures
        r is Some <==> header(header_views(headers@), name@) is Some,
        r matches Some(value) ==> header(header_views(headers@), name@) == Some(value@),
{
    let ghost views = header_views(headers@);
    let mut i: usize = 0;
    while i < headers.len()
        invariant
            i <= headers.len(),
            views == header_views(headers@),
            header_at(views, name@, 0) == header_at(views, name@, i as int),
        decreases headers.len() - i,
    {
        assert(views[i as int] == (headers@[i as int].0@, headers@[i as int].1@));
        if text::is_word(headers[i].0.as_str(), name) {
            return Some(headers[i].1.as_str());
        }
        i = i + 1;
    }
    None
}

fn read_body_length(headers: &Vec<(String, String)>) -> (r: usize)
    ensures
        r == body_length(header_views(headers@)),
{
    match lookup(headers, "content-length") {
        Some(value) => {
            let chars = text::chars_of(value);
            match number::read_usize(chars.as_slice()) {
                Some(n) => n,
                None => 0,
            }
        },
        None => 0,
    }
}

/// The value of the first header of `request` named `name`, the case of ASCII
/// letters aside.
pub fn header_value<'a>(request: &'a Request, name: &str) -> (r: Option<&'a str>)
    ensures
        r is Some <==> header(request@.headers, name@) is Some,
        r matches Some(value) ==> header(request@.headers, name@) == Some(value@),
{
    lookup(&request.headers, name)
}

/// Whether the client asks for the connection to stay open: under HTTP/1.0 only by
/// `Connection: keep-alive`, otherwise unless it sends `Connection: close`.
pub open spec fn keeps_alive(request: RequestView) -> bool {
    let connection = header(request.headers, "connection"@);
    if request.version == "HTTP/1.0"@ {
        connection matches Some(value) && text::same_ignoring_case(value, "keep-alive"@)
    } else {
        !(connection matches Some(value) && text::same_ignoring_case(value, "close"@))
    }
}

/// Whether the client asks for the connection to stay open.
pub fn wants_keep_alive(request: &Request) -> (r: bool)
    ensures
        r == keeps_alive(request@),
{
    let connection = header_value(request, "connection");
    if text::same(request.version.as_str(), "HTTP/1.0") {
        match connection {
            Some(value) => text::is_word(value, "keep-alive"),
            None => false,
        }
    } else {
        match connection {
            Some(value) => !text::is_word(value, "close"),
            None => true,
        }
    }
}

/// Whether one of the comma-separated parts of `value` is `chunked`.
pub open spec fn names_chunked(value: Seq<char>) -> bool {
    exists|i: int|
        0 <= i < text::split(value, ',').len() && text::same_ignoring_case(
            text::trim(#[trigger] text::split(value, ',')[i]),
            "chunked"@,
        )
}

/// Whether a `Transfer-Encoding` header names `chunked`.
pub open spec fn is_chunked(headers: Seq<(Seq<char>, Seq<char>)>) -> bool {
    exists|i: int|
        0 <= i < headers.len() && text::same_ignoring_case(
            (#[trigger] headers[i]).0,
            "transfer-encoding"@,
        ) && names_chunked(headers[i].1)
}

fn value_names_chunked(value: &str) -> (r: bool)
    ensures
        r == names_chunked(value@),
{
    let chars = text::chars_of(value);
    let chunked = text::chars_of("chunked");
    let parts = text::cut_all(chars.as_slice(), ',');
    let ghost all = text::texts(parts@);
    let mut i: usize = 0;
    while i < parts.len()
        invariant
            i <= parts.len(),
            chunked@ == "chunked"@,
            all == text::texts(parts@),
            all == text::split(value@, ','),
            forall|j: int|
                0 <= j < i ==> !text::same_ignoring_case(
                    text::trim(#[trigger] all[j]),
                    "chunked"@,
                ),
        decreases parts.len() - i,
    {
        assert(all[i as int] == parts@[i as int]@);
        if text::equals_ignoring_case(text::trimmed(parts[i]), chunked.as_slice()) {
            return true;
        }
        i = i + 1;
    }
    false
}

/// Whether the body of `request` comes in chunks.
pub fn has_chunked_transfer_encoding(request: &Request) -> (r: bool)
    ensures
        r == is_chunked(request@.headers),
{
    let ghost views = request@.headers;
    let mut i: usize = 0;
    while i < request.headers.len()
        invariant
            i <= request.headers.len(),
            views == request@.headers,
            forall|j: int|
                0 <= j < i ==> !(text::same_ignoring_case(
                    (#[trigger] views[j]).0,
                    "transfer-encoding"@,
                ) && names_chunked(views[j].1)),
        decreases request.headers.len() - i,
    {
        assert(views[i as int] == (
            request.headers@[i as int].0@,
            request.headers@[i as int].1@,
        ));
        if text::is_word(request.headers[i].0.as_str(), "transfer-encoding")
            && value_names_chunked(request.headers[i].1.as_str()) {
            return true;
        }
        i = i + 1;
    }
    false
}

/// The protocol that the client used: what `X-Forwarded-Proto` says, else `http`.
pub open spec fn client_protocol(request: RequestView) -> Seq<char> {
    match header(request.headers, "x-forwarded-proto"@) {
        Some(value) => value,
        None => "http"@,
    }
}

/// The protocol that the client used, as an upstream is told.
pub fn forwarded_proto(request: &Request) -> (r: &str)
    ensures
        r@ == client_protocol(request@),
{
    match header_value(request, "x-forwarded-proto") {
        Some(value) => value,
        None => "http",
    }
}

} // verus!
