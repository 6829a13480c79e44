//! What an upstream server is sent and what becomes of its answer: for every request and
//! every answer that can be written down.
use crate::bytes;
use crate::message;
use crate::number;
use crate::plain;
use crate::reading;
use crate::reading::Field;
use crate::request;
use crate::request::{RequestError, RequestView};
use crate::response;
use crate::rule;
use crate::rule::ProxyRuleView;
use crate::runtime::RuntimeConfig;
use crate::text;
use crate::upstream;
use crate::upstream::{
    BodyCopy, ExchangeView, FailureKind, HeadError, ProxyError, StepView, UpstreamRead,
};
use vstd::prelude::*;
use vstd::utf8::*;

verus! {

/// Headers as they are written: the name, a colon and a blank, the value, and the end of
/// the line.
pub open spec fn written(headers: Seq<(Seq<char>, Seq<char>)>) -> Seq<char>
    decreases headers.len(),
{
    if headers.len() == 0 {
        Seq::empty()
    } else {
        let (name, value) = headers[headers.len() - 1];
        written(headers.drop_last()) + name + seq![':', ' '] + value + seq!['\r', '\n']
    }
}

/// Whether a header of a request is passed on: its name, capital letters aside, is not
/// `host`, `connection` or `proxy-connection`.
pub open spec fn goes_on(header: (Seq<char>, Seq<char>)) -> bool {
    &&& !plain::same_letters(header.0, "host"@)
    &&& !plain::same_letters(header.0, "connection"@)
    &&& !plain::same_letters(header.0, "proxy-connection"@)
}

/// Whether a header of an answer is passed on: its name, capital letters aside, is not
/// `connection`, `keep-alive` or `proxy-connection`.
pub open spec fn goes_back(header: (Seq<char>, Seq<char>)) -> bool {
    &&& !plain::same_letters(header.0, "connection"@)
    &&& !plain::same_letters(header.0, "keep-alive"@)
    &&& !plain::same_letters(header.0, "proxy-connection"@)
}

/// The headers of a request that are passed on, in order.
pub open spec fn going_on(headers: Seq<(Seq<char>, Seq<char>)>) -> Seq<(Seq<char>, Seq<char>)> {
    headers.filter(|h: (Seq<char>, Seq<char>)| goes_on(h))
}

/// The headers of an answer that are passed on, in order.
pub open spec fn going_back(headers: Seq<(Seq<char>, Seq<char>)>) -> Seq<(Seq<char>, Seq<char>)> {
    headers.filter(|h: (Seq<char>, Seq<char>)| goes_back(h))
}

proof fn lemma_passed_on(headers: Seq<(Seq<char>, Seq<char>)>)
    ensures
        upstream::passed_to_upstream(headers) == written(going_on(headers)),
        message::passed(headers) == going_on(headers),
    decreases headers.len(),
{
    reveal(Seq::filter);
    reveal_strlit(": ");
    reveal_strlit("\r\n");
    assert(": "@ =~= seq![':', ' ']);
    assert("\r\n"@ =~= seq!['\r', '\n']);
    if headers.len() > 0 {
        let last = headers[headers.len() - 1];
        let less = headers.drop_last();
        lemma_passed_on(less);
        plain::law_same_letters(last.0, "host"@);
        plain::law_same_letters(last.0, "connection"@);
        plain::law_same_letters(last.0, "proxy-connection"@);
        if goes_on(last) {
            assert(going_on(headers) =~= going_on(less).push(last));
            assert(going_on(headers).drop_last() =~= going_on(less));
        }
    }
}

/// What an upstream server is sent: the method, the target that the rule gives and the
/// version; who the server is, whom the client asked and how; then every header of the
/// request but those named `host`, `connection` or `proxy-connection`, as they are and in
/// the order they came; that the connection is to be closed; and the body.
pub proof fn law_request_is_passed_on(request: RequestView, rule: ProxyRuleView)
    ensures
        upstream::forwarded(request, rule) == encode_utf8(
            request.method + seq![' '] + rule::upstream_target(request.target, rule) + seq![' ']
                + request.version + "\r\nHost: "@ + rule.upstream.authority()
                + "\r\nX-Forwarded-Host: "@ + upstream::client_host(request)
                + "\r\nX-Forwarded-Proto: "@ + request::client_protocol(request) + seq!['\r', '\n']
                + written(going_on(request.headers)) + "Connection: close\r\n\r\n"@,
        ) + request.body,
{
    reveal_strlit(" ");
    reveal_strlit("\r\n");
    assert(" "@ =~= seq![' ']);
    assert("\r\n"@ =~= seq!['\r', '\n']);
    lemma_passed_on(request.headers);
}

/// Whether the words, headers and body of a request can be written down and read again.
pub open spec fn can_be_written(request: RequestView) -> bool {
    &&& plain::word(request.method)
    &&& plain::word(request.target)
    &&& plain::word(request.version)
    &&& forall|i: int|
        0 <= i < request.headers.len() ==> {
            let (name, value) = #[trigger] request.headers[i];
            &&& plain::bare(name) && plain::bare(value)
            &&& plain::one_line(name) && plain::one_line(value)
            &&& !name.contains(':')
        }
    &&& request.body.len() <= usize::MAX
    &&& reading::announce(request.headers, request.body.len())
}

proof fn lemma_one_line(s: Seq<char>)
    ensures
        plain::one_line(s) ==> message::one_line(s),
{
    if plain::one_line(s) {
        assert forall|k: int| !message::crlf_at(s, k) by {
            if message::crlf_at(s, k) {
                assert(s[k] == '\r');
            }
        }
    }
}

/// The upstream server reads what it is sent as one request with the same method, version
/// and body, the target that the rule gives, and these headers: its own host, what it is
/// told of the client, every header of the request but the three, and the end of the
/// connection.
pub proof fn law_upstream_reads_the_request(request: RequestView, rule: ProxyRuleView)
    requires
        can_be_written(request),
        plain::word(rule::upstream_target(request.target, rule)),
        plain::bare(rule.upstream.authority()),
        plain::one_line(rule.upstream.authority()),
    ensures
        request::request_in(upstream::forwarded(request, rule)) == Ok::<
            Option<(RequestView, nat)>,
            RequestError,
        >(
            Some(
                (
                    RequestView {
                        method: request.method,
                        target: rule::upstream_target(request.target, rule),
                        version: request.version,
                        headers: seq![
                            ("Host"@, rule.upstream.authority()),
                            ("X-Forwarded-Host"@, upstream::client_host(request)),
                            ("X-Forwarded-Proto"@, request::client_protocol(request)),
                        ] + going_on(request.headers) + seq![("Connection"@, "close"@)],
                        body: request.body,
                    },
                    upstream::forwarded(request, rule).len(),
                ),
            ),
        ),
        forall|i: int|
            0 <= i < request.headers.len() && goes_on(#[trigger] request.headers[i]) ==> going_on(
                request.headers,
            ).contains(request.headers[i]),
{
    let none = Seq::<char>::empty();
    let headers = request.headers;
    assert forall|i: int| 0 <= i < headers.len() implies message::is_header(
        (#[trigger] headers[i]).0,
        headers[i].1,
    ) by {
        let (name, value) = headers[i];
        lemma_one_line(name);
        lemma_one_line(value);
        plain::law_trimmed(none, name, none);
        plain::law_trimmed(none, value, none);
    }
    reading::law_body_length(headers, request.body.len());
    let target = rule::upstream_target(request.target, rule);
    lemma_word(request.method);
    lemma_word(request.target);
    lemma_word(request.version);
    lemma_word(target);
    let host = rule.upstream.authority();
    lemma_one_line(host);
    plain::law_trimmed(none, host, none);
    assert(message::is_header("Host"@, host)) by {
        reveal_strlit("Host");
        plain::law_trimmed(none, "Host"@, none);
    }
    message::law_forwarded_request_reads_back(request, rule);
    lemma_passed_on(headers);
    assert forall|i: int| 0 <= i < headers.len() && goes_on(#[trigger] headers[i]) implies going_on(
        headers,
    ).contains(headers[i]) by {
        lemma_filtered(headers, i);
    }
}

proof fn lemma_filtered(headers: Seq<(Seq<char>, Seq<char>)>, i: int)
    requires
        0 <= i < headers.len(),
        goes_on(headers[i]),
    ensures
        going_on(headers).contains(headers[i]),
    decreases headers.len(),
{
    reveal(Seq::filter);
    let less = headers.drop_last();
    let all = going_on(headers);
    if i < less.len() {
        lemma_filtered(less, i);
        let k = going_on(less).index_of(headers[i]);
        assert(all[k] == headers[i]);
    } else {
        assert(all[all.len() - 1] == headers[i]);
    }
}

proof fn lemma_word(s: Seq<char>)
    requires
        plain::word(s),
    ensures
        message::is_word(s),
{
    assert forall|i: int| 0 <= i < s.len() implies !text::is_space(#[trigger] s[i]) by {
        assert(!plain::white(s[i]));
    }
}

proof fn lemma_written_front(
    first: (Seq<char>, Seq<char>),
    rest: Seq<(Seq<char>, Seq<char>)>,
)
    ensures
        written(seq![first] + rest) == first.0 + seq![':', ' '] + first.1 + seq!['\r', '\n']
            + written(rest),
    decreases rest.len(),
{
    let all = seq![first] + rest;
    let none = Seq::<(Seq<char>, Seq<char>)>::empty();
    if rest.len() == 0 {
        assert(all.drop_last() =~= none);
        assert(written(none) == Seq::<char>::empty());
        assert(written(rest) == Seq::<char>::empty());
        assert(written(all) =~= first.0 + seq![':', ' '] + first.1 + seq!['\r', '\n']);
    } else {
        let last = rest[rest.len() - 1];
        assert(all[all.len() - 1] == last);
        assert(all.drop_last() =~= seq![first] + rest.drop_last());
        lemma_written_front(first, rest.drop_last());
        assert(written(all) =~= first.0 + seq![':', ' '] + first.1 + seq!['\r', '\n'] + written(
            rest,
        ));
    }
}

proof fn lemma_back_front(
    first: (Seq<char>, Seq<char>),
    rest: Seq<(Seq<char>, Seq<char>)>,
)
    ensures
        going_back(seq![first] + rest) == if goes_back(first) {
            seq![first] + going_back(rest)
        } else {
            going_back(rest)
        },
    decreases rest.len(),
{
    reveal(Seq::filter);
    let all = seq![first] + rest;
    if rest.len() == 0 {
        assert(all.drop_last() =~= Seq::empty());
        assert(going_back(all.drop_last()) =~= Seq::empty());
        assert(going_back(rest) =~= Seq::empty());
        assert(all[all.len() - 1] == first);
        assert(going_back(all) =~= if goes_back(first) {
            seq![first] + going_back(rest)
        } else {
            going_back(rest)
        });
    } else {
        let last = rest[rest.len() - 1];
        assert(all[all.len() - 1] == last);
        assert(all.drop_last() =~= seq![first] + rest.drop_last());
        lemma_back_front(first, rest.drop_last());
        assert(going_back(all) =~= if goes_back(first) {
            seq![first] + going_back(rest)
        } else {
            going_back(rest)
        });
    }
}

proof fn lemma_sent_back(fields: Seq<Field>)
    requires
        reading::are_fields(fields),
    ensures
        upstream::passed_to_client(reading::field_lines(fields)) == Some(
            written(going_back(reading::pairs(fields))),
        ),
    decreases fields.len(),
{
    reveal_strlit(": ");
    reveal_strlit("\r\n");
    assert(": "@ =~= seq![':', ' ']);
    assert("\r\n"@ =~= seq!['\r', '\n']);
    let lines = reading::field_lines(fields);
    let all = reading::pairs(fields);
    if fields.len() == 0 {
        reveal(Seq::filter);
        assert(going_back(all).len() == 0);
    } else {
        let f = fields[0];
        let rest = fields.skip(1);
        assert forall|i: int| 0 <= i < rest.len() implies (#[trigger] rest[i]).wf() by {
            assert(rest[i] == fields[i + 1]);
        }
        lemma_sent_back(rest);
        reading::law_field(f);
        assert(lines[0] == f.line());
        assert(lines.skip(1) =~= reading::field_lines(rest));
        let first = (f.name, f.value);
        assert(all =~= seq![first] + reading::pairs(rest));
        lemma_back_front(first, reading::pairs(rest));
        lemma_written_front(first, going_back(reading::pairs(rest)));
        plain::law_same_letters(f.name, "connection"@);
        plain::law_same_letters(f.name, "keep-alive"@);
        plain::law_same_letters(f.name, "proxy-connection"@);
        assert(f.name + ": "@ + f.value + "\r\n"@ + written(going_back(reading::pairs(rest)))
            =~= f.name + seq![':', ' '] + f.value + seq!['\r', '\n'] + written(
            going_back(reading::pairs(rest)),
        ));
    }
}

/// The head of a message without the empty line: its lines, with a carriage return and a
/// line feed between them.
pub open spec fn head_of(lines: Seq<Seq<char>>) -> Seq<u8> {
    encode_utf8(message::joined(lines))
}

/// The lines of a head are its lines.
proof fn lemma_head_of(first: Seq<char>, fields: Seq<Field>)
    requires
        plain::one_line(first),
        reading::are_fields(fields),
    ensures
        ({
            let lines = seq![first] + reading::field_lines(fields);
            &&& valid_utf8(head_of(lines))
            &&& text::split_crlf(decode_utf8(head_of(lines))) == lines
            &&& lines[0] == first
            &&& lines.skip(1) == reading::field_lines(fields)
            &&& message::are_lines(lines)
        }),
{
    let lines = seq![first] + reading::field_lines(fields);
    assert forall|i: int| 0 <= i < lines.len() implies message::one_line(#[trigger] lines[i]) && (i
        >= 1 ==> lines[i].len() > 0) by {
        if i > 0 {
            assert(lines[i] == fields[i - 1].line());
            assert(fields[i - 1].wf());
            reading::law_field(fields[i - 1]);
        }
        lemma_one_line(lines[i]);
    }
    message::law_head_ends(lines, Seq::empty());
    assert(lines.skip(1) =~= reading::field_lines(fields));
}

/// What a client is told of its connection.
pub open spec fn told(runtime: RuntimeConfig, keep_alive: bool) -> Seq<char> {
    (if keep_alive {
        "Connection: keep-alive\r\nKeep-Alive: timeout="@
    } else {
        "Connection: close\r\nKeep-Alive: timeout="@
    }) + number::decimal(runtime.keep_alive_timeout_secs as nat) + ", max="@ + number::decimal(
        runtime.keep_alive_max as nat,
    ) + "\r\n"@
}

/// What a client is told of its connection is written so.
pub proof fn lemma_told(runtime: RuntimeConfig, keep_alive: bool)
    ensures
        response::connection_text(runtime, keep_alive) == told(runtime, keep_alive),
{
    reveal_strlit("Connection: ");
    reveal_strlit("keep-alive");
    reveal_strlit("close");
    reveal_strlit("\r\nKeep-Alive: timeout=");
    reveal_strlit("Connection: keep-alive\r\nKeep-Alive: timeout=");
    reveal_strlit("Connection: close\r\nKeep-Alive: timeout=");
    assert("Connection: "@ + "keep-alive"@ + "\r\nKeep-Alive: timeout="@
        =~= "Connection: keep-alive\r\nKeep-Alive: timeout="@);
    assert("Connection: "@ + "close"@ + "\r\nKeep-Alive: timeout="@
        =~= "Connection: close\r\nKeep-Alive: timeout="@);
}

/// The head that a client gets of an answer: the first line, every header but those named
/// `connection`, `keep-alive` or `proxy-connection`, in order and without the white space
/// around their names and values, and then what the client is told of its own connection.
/// A head that is not text, and one with a line without a colon, are refused.
pub proof fn law_answer_head_is_passed_on(
    first: Seq<char>,
    fields: Seq<Field>,
    line: Seq<char>,
    runtime: RuntimeConfig,
    keep_alive: bool,
)
    requires
        plain::one_line(first),
        reading::are_fields(fields),
        line.len() > 0 && !line.contains(':') && plain::one_line(line),
    ensures
        upstream::rewritten(
            head_of(seq![first] + reading::field_lines(fields)),
            runtime,
            keep_alive,
        ) == Ok::<Seq<char>, HeadError>(
            first + seq!['\r', '\n'] + written(going_back(reading::pairs(fields))) + told(
                runtime,
                keep_alive,
            ) + seq!['\r', '\n'],
        ),
        upstream::rewritten(
            head_of(seq![first] + reading::field_lines(fields) + seq![line]),
            runtime,
            keep_alive,
        ) == Err::<Seq<char>, HeadError>(HeadError::InvalidHeader),
        forall|head: Seq<u8>|
            !#[trigger] valid_utf8(head) ==> upstream::rewritten(head, runtime, keep_alive) == Err::<
                Seq<char>,
                HeadError,
            >(HeadError::InvalidHeaders) && upstream::announced_length(head) is None,
{
    reveal_strlit("\r\n");
    assert("\r\n"@ =~= seq!['\r', '\n']);
    lemma_head_of(first, fields);
    lemma_sent_back(fields);
    lemma_told(runtime, keep_alive);
    let lines = seq![first] + reading::field_lines(fields) + seq![line];
    let mine = seq![first] + reading::field_lines(fields);
    assert forall|i: int| 0 <= i < lines.len() implies message::one_line(#[trigger] lines[i]) && (i
        >= 1 ==> lines[i].len() > 0) by {
        if i < mine.len() {
            assert(lines[i] == mine[i]);
            assert(message::one_line(mine[i]));
        } else {
            lemma_one_line(line);
            assert(lines[i] == line);
        }
    }
    message::law_head_ends(lines, Seq::empty());
    assert(lines.skip(1) =~= reading::field_lines(fields) + seq![line]);
    lemma_line_without_colon(fields, line);
}

proof fn lemma_line_without_colon(fields: Seq<Field>, line: Seq<char>)
    requires
        reading::are_fields(fields),
        line.len() > 0 && !line.contains(':'),
    ensures
        upstream::passed_to_client(reading::field_lines(fields) + seq![line]) is None,
    decreases fields.len(),
{
    let lines = reading::field_lines(fields) + seq![line];
    if fields.len() == 0 {
        assert(lines[0] == line);
        plain::law_cut_in_two(line, ':', line);
    } else {
        let rest = fields.skip(1);
        assert forall|i: int| 0 <= i < rest.len() implies (#[trigger] rest[i]).wf() by {
            assert(rest[i] == fields[i + 1]);
        }
        lemma_line_without_colon(rest, line);
        reading::law_field(fields[0]);
        assert(lines[0] == fields[0].line());
        assert(lines.skip(1) =~= reading::field_lines(rest) + seq![line]);
    }
}

/// The length that an answer announces is the number in its first `Content-Length`, and none
/// where there is no such header or it is no number.
pub proof fn law_announced_length(first: Seq<char>, fields: Seq<Field>, i: int, n: nat)
    requires
        plain::one_line(first),
        reading::are_fields(fields),
        n <= usize::MAX,
    ensures
        ({
            let head = head_of(seq![first] + reading::field_lines(fields));
            let headers = reading::pairs(fields);
            &&& plain::none_named(headers, "content-length"@) ==> upstream::announced_length(
                head,
            ) is None
            &&& plain::first_named(headers, "content-length"@, i) && headers[i].1
                == number::decimal(n) ==> upstream::announced_length(head) == Some(n)
            &&& plain::first_named(headers, "content-length"@, i) && reading::no_number(
                headers[i].1,
            ) ==> upstream::announced_length(head) is None
        }),
{
    lemma_head_of(first, fields);
    lemma_length_among(fields, i);
    number::law_decimal_read_back(n, usize::MAX as nat);
    let headers = reading::pairs(fields);
    if plain::first_named(headers, "content-length"@, i) {
        let value = headers[i].1;
        plain::law_not_a_number(value, usize::MAX as nat, 0);
        if exists|m: nat| m > usize::MAX && value == #[trigger] number::decimal(m) {
            let m = choose|m: nat| m > usize::MAX && value == #[trigger] number::decimal(m);
            number::law_decimal_read_back(m, m);
            plain::law_not_a_number(value, usize::MAX as nat, m);
        }
    }
}

proof fn lemma_length_among(fields: Seq<Field>, i: int)
    requires
        reading::are_fields(fields),
    ensures
        ({
            let headers = reading::pairs(fields);
            let lines = reading::field_lines(fields);
            &&& plain::none_named(headers, "content-length"@) ==> upstream::length_among(
                lines,
            ) is None
            &&& plain::first_named(headers, "content-length"@, i) ==> upstream::length_among(lines)
                == number::number(headers[i].1, usize::MAX as nat)
        }),
    decreases fields.len(),
{
    let headers = reading::pairs(fields);
    let lines = reading::field_lines(fields);
    if fields.len() > 0 {
        let rest = fields.skip(1);
        let f = fields[0];
        assert forall|k: int| 0 <= k < rest.len() implies (#[trigger] rest[k]).wf() by {
            assert(rest[k] == fields[k + 1]);
        }
        lemma_length_among(rest, i - 1);
        reading::law_field(f);
        assert(lines[0] == f.line());
        assert(lines.skip(1) =~= reading::field_lines(rest));
        let later = reading::pairs(rest);
        assert forall|k: int| 0 <= k < later.len() implies later[k] == headers[k + 1] by {}
        plain::law_same_letters(f.name, "content-length"@);
        assert(headers[0].0 == f.name);
        if plain::none_named(headers, "content-length"@) {
            assert(!plain::same_letters(headers[0].0, "content-length"@));
            assert forall|k: int| 0 <= k < later.len() implies !plain::same_letters(
                #[trigger] later[k].0,
                "content-length"@,
            ) by {
                assert(!plain::same_letters(headers[k + 1].0, "content-length"@));
            }
        }
        if plain::first_named(headers, "content-length"@, i) {
            if i > 0 {
                assert(!plain::same_letters(headers[0].0, "content-length"@));
                assert(later[i - 1] == headers[i]);
                assert forall|k: int| 0 <= k < i - 1 implies !plain::same_letters(
                    #[trigger] later[k].0,
                    "content-length"@,
                ) by {
                    assert(!plain::same_letters(headers[k + 1].0, "content-length"@));
                }
                assert(plain::first_named(later, "content-length"@, i - 1));
            }
        }
    }
}

/// What was announced of a body, as it is counted.
pub open spec fn counted(fields: Seq<Field>, announced: Option<usize>) -> bool {
    let headers = reading::pairs(fields);
    match announced {
        Some(n) => exists|i: int| #[trigger]
            plain::first_named(headers, "content-length"@, i) && headers[i].1 == number::decimal(
                n as nat,
            ),
        None => plain::none_named(headers, "content-length"@),
    }
}

/// How an exchange begins: until the head of the answer is complete it reads on; then the
/// client gets the head, as it is passed on, and all that has come of the body; an answer
/// that is collected and announces an empty body is complete with its head.
pub proof fn law_exchange_begins(
    before: Seq<u8>,
    data: Seq<u8>,
    first: Seq<char>,
    fields: Seq<Field>,
    announced: Option<usize>,
    body: Seq<u8>,
    runtime: RuntimeConfig,
    keep_alive: bool,
    buffered: bool,
)
    requires
        plain::one_line(first),
        reading::are_fields(fields),
        counted(fields, announced),
        body.len() <= usize::MAX,
    ensures
        ({
            let start = ExchangeView { received: before, body: None };
            let (next, step) = start.after(data, runtime, keep_alive, buffered);
            let head = encode_utf8(
                first + seq!['\r', '\n'] + written(going_back(reading::pairs(fields))) + told(
                    runtime,
                    keep_alive,
                ) + seq!['\r', '\n'],
            );
            &&& bytes::head_end(before + data) is None ==> step == StepView::Read && next == (
            ExchangeView { received: before + data, body: None })
            &&& before + data == reading::message(
                seq![first] + reading::field_lines(fields),
                body,
            ) ==> if buffered && announced == Some(0usize) {
                step == (StepView::Whole { head })
            } else {
                &&& step == (StepView::Begin { head, body })
                &&& next.body == Some(
                    BodyCopy { copied: body.len() as usize, content_length: announced },
                )
            }
        }),
{
    let start = ExchangeView { received: before, body: None };
    let all = before + data;
    let lines = seq![first] + reading::field_lines(fields);
    if all == reading::message(lines, body) {
        lemma_head_of(first, fields);
        message::law_head_ends(lines, body);
        assert(message::crlf() =~= seq!['\r', '\n']) by {
            reveal_strlit("\r\n");
        }
        let end = bytes::head_end(all)->0 as int;
        assert(all.take(end) == head_of(lines));
        assert(all.skip(end + 4) == body);
        let line = seq!['x'];
        assert(!line.contains(':'));
        law_answer_head_is_passed_on(first, fields, line, runtime, keep_alive);
        match announced {
            Some(n) => {
                let headers = reading::pairs(fields);
                let i = choose|i: int| #[trigger]
                    plain::first_named(headers, "content-length"@, i) && headers[i].1
                        == number::decimal(n as nat);
                law_announced_length(first, fields, i, n as nat);
            },
            None => {
                law_announced_length(first, fields, 0, 0);
            },
        }
    }
}

/// How an exchange goes on: every byte of the body is passed on as it comes, the last where
/// as many have come as were announced. An answer is complete where the server closes the
/// connection after its head; a TLS connection that ends without notice is as good as
/// closed where all of the body has come, or any of it where no length was announced. Any
/// other failure is one, and so is an end before the head.
pub proof fn law_exchange_goes_on(
    copied: usize,
    content_length: Option<usize>,
    received: Seq<u8>,
    read: UpstreamRead,
    runtime: RuntimeConfig,
    keep_alive: bool,
    buffered: bool,
)
    ensures
        ({
            let copy = BodyCopy { copied, content_length };
            let x = ExchangeView { received, body: Some(copy) };
            let (next, step) = x.after_read(read, runtime, keep_alive, buffered);
            let early = ExchangeView { received, body: None };
            let (same, failed) = early.after_read(read, runtime, keep_alive, buffered);
            match read {
                UpstreamRead::Data(data) => {
                    let count = if copied + data@.len() <= usize::MAX {
                        (copied + data@.len()) as usize
                    } else {
                        usize::MAX
                    };
                    &&& step == (StepView::Pass {
                        bytes: data@,
                        last: content_length is Some && count >= content_length->0,
                    })
                    &&& next.body == Some(BodyCopy { copied: count, content_length })
                },
                UpstreamRead::Eof => {
                    &&& step == StepView::Done
                    &&& failed == StepView::Failed(ProxyError::ClosedEarly)
                },
                UpstreamRead::Failed(failure) => {
                    let quiet = failure.kind == FailureKind::UnexpectedEof && exists|
                        a: Seq<char>,
                        b: Seq<char>,
                    |
                        failure.message@ == #[trigger] (a
                            + "peer closed connection without sending TLS close_notify"@ + b);
                    let complete = match content_length {
                        Some(n) => copied >= n,
                        None => copied > 0,
                    };
                    &&& quiet && complete ==> step == StepView::Done
                    &&& !(quiet && complete) ==> step == StepView::Failed(ProxyError::Io(failure))
                    &&& failed == StepView::Failed(ProxyError::Io(failure))
                },
            }
        }),
{
    if let UpstreamRead::Failed(failure) = read {
        plain::law_part(
            failure.message@,
            "peer closed connection without sending TLS close_notify"@,
        );
    }
}

} // verus!
