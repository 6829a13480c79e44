//! Requests as they are read: for every request that can be written down, what reading it
//! gives, and for what is none, what is said of it.
use crate::bytes;
use crate::message;
use crate::number;
use crate::plain;
use crate::request;
use crate::request::{RequestError, RequestView};
use crate::text;
use crate::upstream;
use vstd::prelude::*;
use vstd::utf8::*;

verus! {

/// A header as it may stand in a line: white space may surround the name and the value.
pub struct Field {
    pub name_lead: Seq<char>,
    pub name: Seq<char>,
    pub name_tail: Seq<char>,
    pub value_lead: Seq<char>,
    pub value: Seq<char>,
    pub value_tail: Seq<char>,
}

impl Field {
    /// The line that the header stands in.
    pub open spec fn line(self) -> Seq<char> {
        (self.name_lead + self.name + self.name_tail) + seq![':'] + (self.value_lead + self.value
            + self.value_tail)
    }

    /// Whether what surrounds the name and the value is white space, which they do not start
    /// or end with, the name holds no colon, and all stands on one line.
    pub open spec fn wf(self) -> bool {
        &&& plain::all_white(self.name_lead)
        &&& plain::all_white(self.name_tail)
        &&& plain::all_white(self.value_lead)
        &&& plain::all_white(self.value_tail)
        &&& plain::bare(self.name)
        &&& plain::bare(self.value)
        &&& !self.name.contains(':')
        &&& plain::one_line(self.line())
    }
}

/// The lines that the fields stand in.
pub open spec fn field_lines(fields: Seq<Field>) -> Seq<Seq<char>> {
    fields.map_values(|f: Field| f.line())
}

/// The names and values of fields.
pub open spec fn pairs(fields: Seq<Field>) -> Seq<(Seq<char>, Seq<char>)> {
    fields.map_values(|f: Field| (f.name, f.value))
}

/// Whether all fields are well-formed.
pub open spec fn are_fields(fields: Seq<Field>) -> bool {
    forall|i: int| 0 <= i < fields.len() ==> (#[trigger] fields[i]).wf()
}

/// A message: its lines, each ended by a carriage return and a line feed, an empty line, and
/// a body.
pub open spec fn message(lines: Seq<Seq<char>>, body: Seq<u8>) -> Seq<u8> {
    encode_utf8(message::ended(lines) + seq!['\r', '\n']) + body
}

/// A line with a header is cut into its name and value.
pub proof fn law_field(f: Field)
    requires
        f.wf(),
    ensures
        text::split_once(f.line(), ':') matches Some((a, b)) && text::trim(a) == f.name
            && text::trim(b) == f.value,
        f.line().len() > 0,
{
    let a = f.name_lead + f.name + f.name_tail;
    let b = f.value_lead + f.value + f.value_tail;
    assert forall|i: int| 0 <= i < a.len() implies a[i] != ':' by {
        if i < f.name_lead.len() {
            assert(plain::white(f.name_lead[i]));
        } else if i < f.name_lead.len() + f.name.len() {
            assert(f.name.contains(f.name[i - f.name_lead.len()]));
        } else {
            assert(plain::white(f.name_tail[i - f.name_lead.len() - f.name.len()]));
        }
    }
    plain::law_cut_in_two(a, ':', b);
    plain::law_trimmed(f.name_lead, f.name, f.name_tail);
    plain::law_trimmed(f.value_lead, f.value, f.value_tail);
}

/// Header lines are read as the headers that they spell, in order.
pub proof fn law_headers_are_read(fields: Seq<Field>)
    requires
        are_fields(fields),
    ensures
        request::headers_in(field_lines(fields)) == Some(pairs(fields)),
    decreases fields.len(),
{
    let lines = field_lines(fields);
    if fields.len() == 0 {
        assert(pairs(fields) =~= Seq::empty());
    } else {
        let rest = fields.skip(1);
        assert forall|i: int| 0 <= i < rest.len() implies (#[trigger] rest[i]).wf() by {
            assert(rest[i] == fields[i + 1]);
        }
        law_headers_are_read(rest);
        law_field(fields[0]);
        assert(lines[0] == fields[0].line());
        assert(lines.skip(1) =~= field_lines(rest));
        assert(seq![(fields[0].name, fields[0].value)] + pairs(rest) =~= pairs(fields));
    }
}

/// The value of a header is that of the first with its name, capital letters aside.
pub proof fn law_first_header(headers: Seq<(Seq<char>, Seq<char>)>, name: Seq<char>)
    ensures
        plain::none_named(headers, name) <==> request::header(headers, name) is None,
        forall|i: int| #[trigger]
            plain::first_named(headers, name, i) ==> request::header(headers, name) == Some(
                headers[i].1,
            ),
        request::header(headers, name) is Some ==> exists|i: int|
            plain::first_named(headers, name, i),
{
    lemma_header_at(headers, name, 0);
    let k = request::header_at(headers, name, 0);
    if k < headers.len() {
        assert(plain::first_named(headers, name, k));
        assert forall|i: int| #[trigger] plain::first_named(headers, name, i) implies i == k by {
            if i < k {
                assert(!plain::same_letters(headers[i].0, name));
            }
            if k < i {
                assert(!plain::same_letters(headers[k].0, name));
            }
        }
        assert(plain::same_letters(headers[k].0, name));
    }
}

proof fn lemma_header_at(headers: Seq<(Seq<char>, Seq<char>)>, name: Seq<char>, from: int)
    requires
        0 <= from <= headers.len(),
    ensures
        ({
            let k = request::header_at(headers, name, from);
            &&& from <= k <= headers.len()
            &&& k < headers.len() ==> plain::same_letters(headers[k].0, name)
            &&& forall|j: int|
                from <= j < k ==> !plain::same_letters(#[trigger] headers[j].0, name)
        }),
    decreases headers.len() - from,
{
    if from < headers.len() {
        plain::law_same_letters(headers[from].0, name);
        if !text::same_ignoring_case(headers[from].0, name) {
            lemma_header_at(headers, name, from + 1);
        }
    }
}

/// Whether `headers` announce a body of `n` bytes: the first `Content-Length` is the number
/// `n`; or `n` is 0, and there is none, or the first is no number that can be counted.
pub open spec fn announce(headers: Seq<(Seq<char>, Seq<char>)>, n: nat) -> bool {
    let name = "content-length"@;
    ||| plain::none_named(headers, name) && n == 0
    ||| exists|i: int| #[trigger]
        plain::first_named(headers, name, i) && (headers[i].1 == number::decimal(n) || (n == 0
            && no_number(headers[i].1)))
}

/// Whether `s` is empty, a sign alone, or holds a character that is neither a digit nor a
/// sign at its start, or is a number that is too large to be counted.
pub open spec fn no_number(s: Seq<char>) -> bool {
    ||| s.len() == 0
    ||| s == seq!['+']
    ||| exists|k: int|
        0 <= k < s.len() && !plain::figure(#[trigger] s[k]) && !(k == 0 && s[k] == '+')
    ||| exists|m: nat| m > usize::MAX && s == #[trigger] number::decimal(m)
}

/// A body is as long as the first `Content-Length` says.
pub proof fn law_body_length(headers: Seq<(Seq<char>, Seq<char>)>, n: nat)
    requires
        n <= usize::MAX,
        announce(headers, n),
    ensures
        request::body_length(headers) == n,
{
    law_first_header(headers, "content-length"@);
    number::law_decimal_read_back(n, usize::MAX as nat);
    if !plain::none_named(headers, "content-length"@) {
        let i = choose|i: int| #[trigger]
            plain::first_named(headers, "content-length"@, i) && (headers[i].1 == number::decimal(n)
                || (n == 0 && no_number(headers[i].1)));
        let value = headers[i].1;
        plain::law_not_a_number(value, usize::MAX as nat, 0);
        if exists|m: nat| m > usize::MAX && value == #[trigger] number::decimal(m) {
            let m = choose|m: nat| m > usize::MAX && value == #[trigger] number::decimal(m);
            number::law_decimal_read_back(m, m);
            plain::law_not_a_number(value, usize::MAX as nat, m);
        }
    }
}

/// What holds of the bytes of a message whose lines are good.
proof fn lemma_message(lines: Seq<Seq<char>>, body: Seq<u8>, more: Seq<u8>)
    requires
        lines.len() > 0,
        forall|i: int| 0 <= i < lines.len() ==> plain::one_line(#[trigger] lines[i]),
        forall|i: int| 1 <= i < lines.len() ==> (#[trigger] lines[i]).len() > 0,
    ensures
        ({
            let all = message(lines, body) + more;
            let end = message(lines, Seq::empty()).len() - 4;
            &&& 0 <= end && end + 4 + body.len() == message(lines, body).len()
            &&& bytes::head_end(all) == Some(end as nat)
            &&& valid_utf8(all.take(end))
            &&& text::split_crlf(decode_utf8(all.take(end))) == lines
            &&& all.subrange(end + 4, end + 4 + body.len()) == body
        }),
{
    assert forall|i: int| 0 <= i < lines.len() implies message::one_line(#[trigger] lines[i]) by {
        let line = lines[i];
        assert(plain::one_line(line));
        assert forall|k: int| !message::crlf_at(line, k) by {
            if message::crlf_at(line, k) {
                assert(line[k] == '\r');
            }
        }
    }
    assert(message::crlf() =~= seq!['\r', '\n']) by {
        reveal_strlit("\r\n");
    }
    message::law_head_ends(lines, body + more);
    message::law_head_ends(lines, Seq::empty());
    let head = encode_utf8(message::ended(lines) + message::crlf());
    let all = message(lines, body) + more;
    assert(all =~= head + (body + more));
    assert(message(lines, Seq::empty()) =~= head);
    let end = head.len() - 4;
    assert(all.subrange(end + 4, end + 4 + body.len()) =~= body);
}

/// While the empty line has not come, nothing is read.
proof fn lemma_not_yet(all: Seq<u8>, end: int, k: int)
    requires
        bytes::head_end(all) == Some(end as nat),
        0 <= end,
        0 <= k < end + 4,
        k <= all.len(),
    ensures
        bytes::head_end(all.take(k)) is None,
{
    let part = all.take(k);
    bytes::lemma_head_end(all, 0);
    bytes::lemma_head_end(part, 0);
    if bytes::head_end(part) is Some {
        let e = bytes::head_end(part)->0 as int;
        assert(bytes::blank_line_at(all, e));
    }
}

/// A request with a first line that holds these words reads back.
proof fn lemma_reads_back(
    first: Seq<char>,
    method: Seq<char>,
    target: Seq<char>,
    version: Seq<char>,
    fields: Seq<Field>,
    body: Seq<u8>,
    more: Seq<u8>,
)
    requires
        plain::one_line(first),
        text::words(first).len() >= 2,
        text::words(first)[0] == method,
        text::words(first)[1] == target,
        version == if text::words(first).len() > 2 {
            text::words(first)[2]
        } else {
            "HTTP/1.1"@
        },
        are_fields(fields),
        body.len() <= usize::MAX,
        announce(pairs(fields), body.len()),
    ensures
        is_read(first, method, target, version, fields, body, more),
{
    let lines = seq![first] + field_lines(fields);
    assert forall|i: int| 0 <= i < lines.len() implies plain::one_line(#[trigger] lines[i]) && (i
        >= 1 ==> lines[i].len() > 0) by {
        if i > 0 {
            assert(lines[i] == fields[i - 1].line());
            law_field(fields[i - 1]);
        }
    }
    assert(lines.skip(1) =~= field_lines(fields));
    law_headers_are_read(fields);
    law_body_length(pairs(fields), body.len());
    lemma_message(lines, body, more);
    let whole = message(lines, body);
    let all = whole + more;
    let end = message(lines, Seq::empty()).len() - 4;
    assert forall|k: int| 0 <= k < whole.len() implies #[trigger] request::request_in(
        whole.take(k),
    ) == Ok::<Option<(RequestView, nat)>, RequestError>(None) by {
        lemma_message(lines, body, Seq::empty());
        assert(whole + Seq::<u8>::empty() =~= whole);
        if k < end + 4 {
            lemma_not_yet(whole, end, k);
        } else {
            let part = whole.take(k);
            bytes::lemma_head_end(whole, 0);
            bytes::lemma_head_end(part, 0);
            assert(bytes::blank_line_at(part, end));
            assert forall|i: int| 0 <= i < end implies !bytes::blank_line_at(part, i) by {
                assert(!bytes::blank_line_at(whole, i));
            }
            assert(bytes::head_end(part) == Some(end as nat));
            assert(part.take(end) =~= whole.take(end));
        }
    }
}

/// Whether reading a request with this first line, these fields and this body, and `more`
/// after it, gives the request with these words, its headers and its body, and takes its
/// bytes alone; and nothing while any of its bytes is missing.
pub open spec fn is_read(
    first: Seq<char>,
    method: Seq<char>,
    target: Seq<char>,
    version: Seq<char>,
    fields: Seq<Field>,
    body: Seq<u8>,
    more: Seq<u8>,
) -> bool {
    let whole = message(seq![first] + field_lines(fields), body);
    &&& request::request_in(whole + more) == Ok::<Option<(RequestView, nat)>, RequestError>(
        Some(
            (
                RequestView { method, target, version, headers: pairs(fields), body },
                whole.len(),
            ),
        ),
    )
    &&& forall|k: int|
        0 <= k < whole.len() ==> #[trigger] request::request_in(whole.take(k)) == Ok::<
            Option<(RequestView, nat)>,
            RequestError,
        >(None)
}

/// Every request reads back as it was written, head and body, whatever comes after it: the
/// method, the target and the version are the first three words of its first line, each
/// header has its name and value, in order and without the white space around them, and the
/// body is all of the bytes that were announced. Nothing is read while any of them is
/// missing.
pub proof fn law_request_reads_back(
    lead: Seq<char>,
    method: Seq<char>,
    gap: Seq<char>,
    target: Seq<char>,
    next_gap: Seq<char>,
    version: Seq<char>,
    extra: Seq<char>,
    fields: Seq<Field>,
    body: Seq<u8>,
    more: Seq<u8>,
)
    requires
        plain::all_white(lead),
        plain::word(method),
        plain::all_white(gap) && gap.len() > 0,
        plain::word(target),
        plain::all_white(next_gap) && next_gap.len() > 0,
        plain::word(version),
        extra.len() > 0 ==> plain::white(extra[0]),
        plain::one_line(lead + method + gap + target + next_gap + version + extra),
        are_fields(fields),
        body.len() <= usize::MAX,
        announce(pairs(fields), body.len()),
    ensures
        is_read(
            lead + method + gap + target + next_gap + version + extra,
            method,
            target,
            version,
            fields,
            body,
            more,
        ),
{
    let first = lead + method + gap + target + next_gap + version + extra;
    let third = next_gap + version + extra;
    let second = gap + target + third;
    assert(first =~= lead + method + second);
    assert(second[0] == gap[0] && plain::white(gap[0]));
    assert(third[0] == next_gap[0] && plain::white(next_gap[0]));
    plain::law_words(lead, method, second);
    plain::law_words(gap, target, third);
    plain::law_words(next_gap, version, extra);
    lemma_reads_back(first, method, target, version, fields, body, more);
}

/// A request whose first line holds two words is one of version `HTTP/1.1`.
pub proof fn law_version_may_be_missing(
    lead: Seq<char>,
    method: Seq<char>,
    gap: Seq<char>,
    target: Seq<char>,
    tail: Seq<char>,
    fields: Seq<Field>,
    body: Seq<u8>,
    more: Seq<u8>,
)
    requires
        plain::all_white(lead),
        plain::word(method),
        plain::all_white(gap) && gap.len() > 0,
        plain::word(target),
        plain::all_white(tail),
        plain::one_line(lead + method + gap + target + tail),
        are_fields(fields),
        body.len() <= usize::MAX,
        announce(pairs(fields), body.len()),
    ensures
        is_read(
            lead + method + gap + target + tail,
            method,
            target,
            "HTTP/1.1"@,
            fields,
            body,
            more,
        ),
{
    let first = lead + method + gap + target + tail;
    let second = gap + target + tail;
    assert(first =~= lead + method + second);
    assert(second[0] == gap[0] && plain::white(gap[0]));
    plain::law_words(lead, method, second);
    if tail.len() > 0 {
        assert(plain::white(tail[0]));
    }
    plain::law_words(gap, target, tail);
    plain::law_words(tail, method, Seq::empty());
    lemma_reads_back(first, method, target, "HTTP/1.1"@, fields, body, more);
}

/// What is no request is told apart: a first line without a word, with one word, a header
/// line without a colon, and a head that is not text.
pub proof fn law_what_is_no_request(
    lead: Seq<char>,
    method: Seq<char>,
    gap: Seq<char>,
    target: Seq<char>,
    tail: Seq<char>,
    before: Seq<Field>,
    line: Seq<char>,
    after: Seq<Seq<char>>,
    body: Seq<u8>,
)
    requires
        plain::all_white(lead),
        plain::word(method),
        plain::all_white(gap),
        plain::one_line(lead + method + gap + target + tail),
        plain::one_line(lead),
        plain::one_line(lead + method + gap),
        are_fields(before),
        line.len() > 0 && !line.contains(':') && plain::one_line(line),
        forall|i: int|
            0 <= i < after.len() ==> (#[trigger] after[i]).len() > 0 && plain::one_line(after[i]),
    ensures
        request::request_in(message(seq![lead] + after, body)) == Err::<
            Option<(RequestView, nat)>,
            RequestError,
        >(RequestError::MissingMethod),
        request::request_in(message(seq![lead + method + gap] + after, body)) == Err::<
            Option<(RequestView, nat)>,
            RequestError,
        >(RequestError::MissingTarget),
        gap.len() > 0 && plain::word(target) && (tail.len() > 0 ==> plain::white(tail[0]))
            ==> request::request_in(
            message(
                seq![lead + method + gap + target + tail] + field_lines(before) + seq![line]
                    + after,
                body,
            ),
        ) == Err::<Option<(RequestView, nat)>, RequestError>(RequestError::InvalidHeader),
        forall|b: Seq<u8>, e: int|
            0 <= e && bytes::head_end(b) == Some(e as nat) && !#[trigger] valid_utf8(b.take(e))
                ==> request::request_in(b) == Err::<Option<(RequestView, nat)>, RequestError>(
                RequestError::InvalidHeaders,
            ),
        forall|b: Seq<u8>| #[trigger]
            bytes::head_end(b) is None ==> request::request_in(b) == Ok::<
                Option<(RequestView, nat)>,
                RequestError,
            >(None),
{
    let none = Seq::<u8>::empty();
    let one = lead + method + gap;
    plain::law_words(lead, method, Seq::empty());
    plain::law_words(lead, method, gap);
    plain::law_words(gap, method, Seq::empty());
    if gap.len() > 0 {
        assert(plain::white(gap[0]));
    }
    let a = seq![lead] + after;
    let b = seq![one] + after;
    assert forall|i: int| 0 <= i < a.len() implies plain::one_line(#[trigger] a[i]) && (i >= 1
        ==> a[i].len() > 0) by {
        if i > 0 {
            assert(a[i] == after[i - 1]);
        }
    }
    assert forall|i: int| 0 <= i < b.len() implies plain::one_line(#[trigger] b[i]) && (i >= 1
        ==> b[i].len() > 0) by {
        if i > 0 {
            assert(b[i] == after[i - 1]);
        }
    }
    lemma_message(a, body, none);
    lemma_message(b, body, none);
    assert(message(a, body) + none =~= message(a, body));
    assert(message(b, body) + none =~= message(b, body));
    if gap.len() > 0 && plain::word(target) && (tail.len() > 0 ==> plain::white(tail[0])) {
        let first = lead + method + gap + target + tail;
        assert(first =~= lead + method + (gap + target + tail));
        assert((gap + target + tail)[0] == gap[0]);
        plain::law_words(lead, method, gap + target + tail);
        plain::law_words(gap, target, tail);
        let mine = field_lines(before);
        let c = seq![first] + mine + seq![line] + after;
        assert forall|i: int| 0 <= i < c.len() implies plain::one_line(#[trigger] c[i]) && (i >= 1
            ==> c[i].len() > 0) by {
            if 0 < i <= mine.len() {
                assert(c[i] == before[i - 1].line());
                law_field(before[i - 1]);
            } else if i == mine.len() + 1 {
                assert(c[i] == line);
            } else if i > mine.len() + 1 {
                assert(c[i] == after[i - mine.len() - 2]);
            }
        }
        lemma_message(c, body, none);
        assert(message(c, body) + none =~= message(c, body));
        assert(c.skip(1) =~= mine + seq![line] + after);
        lemma_no_colon(before, line, after);
    }
}

proof fn lemma_no_colon(before: Seq<Field>, line: Seq<char>, after: Seq<Seq<char>>)
    requires
        are_fields(before),
        line.len() > 0 && !line.contains(':'),
    ensures
        request::headers_in(field_lines(before) + seq![line] + after) is None,
    decreases before.len(),
{
    let lines = field_lines(before) + seq![line] + after;
    if before.len() == 0 {
        assert(lines[0] == line);
        plain::law_cut_in_two(line, ':', line);
    } else {
        let rest = before.skip(1);
        assert forall|i: int| 0 <= i < rest.len() implies (#[trigger] rest[i]).wf() by {
            assert(rest[i] == before[i + 1]);
        }
        lemma_no_colon(rest, line, after);
        law_field(before[0]);
        assert(lines[0] == before[0].line());
        assert(lines.skip(1) =~= field_lines(rest) + seq![line] + after);
    }
}

/// Whether a connection is kept open: outside `HTTP/1.0` unless the first `Connection`
/// header is there and is the word `close`; under `HTTP/1.0` only if it is there and is the
/// word `keep-alive`. Capital letters do not matter.
pub proof fn law_keep_alive(request: RequestView)
    ensures
        request.version != "HTTP/1.0"@ ==> (!request::keeps_alive(request) <==> exists|i: int|
            #[trigger] plain::first_named(request.headers, "connection"@, i)
                && plain::same_letters(request.headers[i].1, "close"@)),
        request.version == "HTTP/1.0"@ ==> (request::keeps_alive(request) <==> exists|i: int|
            #[trigger] plain::first_named(request.headers, "connection"@, i)
                && plain::same_letters(request.headers[i].1, "keep-alive"@)),
{
    let headers = request.headers;
    law_first_header(headers, "connection"@);
    if let Some(value) = request::header(headers, "connection"@) {
        let i = choose|i: int| plain::first_named(headers, "connection"@, i);
        assert(plain::first_named(headers, "connection"@, i));
        assert(headers[i].1 == value);
        plain::law_same_letters(value, "close"@);
        plain::law_same_letters(value, "keep-alive"@);
    }
}

/// For each value of the first `Connection` header: `keep-alive` keeps a connection open
/// under every version, `close` under none, and without such a header, or with any other
/// value, it is kept open outside `HTTP/1.0`.
pub proof fn law_keep_alive_by_value(request: RequestView, i: int, value: Seq<char>)
    requires
        plain::first_named(request.headers, "connection"@, i),
        value == request.headers[i].1,
    ensures
        plain::same_letters(value, "keep-alive"@) ==> request::keeps_alive(request),
        plain::same_letters(value, "close"@) ==> !request::keeps_alive(request),
        !plain::same_letters(value, "keep-alive"@) && !plain::same_letters(value, "close"@) ==> (
        request::keeps_alive(request) <==> request.version != "HTTP/1.0"@),
        forall|other: RequestView|
            plain::none_named(other.headers, "connection"@) ==> (#[trigger] request::keeps_alive(
                other,
            ) <==> other.version != "HTTP/1.0"@),
{
    law_first_header(request.headers, "connection"@);
    plain::law_same_letters(value, "close"@);
    plain::law_same_letters(value, "keep-alive"@);
    reveal_strlit("close");
    reveal_strlit("keep-alive");
    assert forall|other: RequestView|
        plain::none_named(other.headers, "connection"@) implies (#[trigger] request::keeps_alive(
        other,
    ) <==> other.version != "HTTP/1.0"@) by {
        law_first_header(other.headers, "connection"@);
    }
}

/// Whether `value` is a list, parted by commas, in which one part is the word `chunked`,
/// white space and capital letters aside.
pub open spec fn lists_chunked(value: Seq<char>) -> bool {
    exists|before: Seq<char>, lead: Seq<char>, part: Seq<char>, tail: Seq<char>, after: Seq<char>|
        {
            &&& value == #[trigger] (before + (lead + part + tail) + after)
            &&& before.len() > 0 ==> before[before.len() - 1] == ','
            &&& after.len() > 0 ==> after[0] == ','
            &&& plain::all_white(lead)
            &&& plain::all_white(tail)
            &&& plain::same_letters(part, "chunked"@)
        }
}

/// A body comes in chunks where some `Transfer-Encoding` header lists `chunked`.
pub proof fn law_chunked(headers: Seq<(Seq<char>, Seq<char>)>)
    ensures
        request::is_chunked(headers) <==> exists|i: int|
            0 <= i < headers.len() && plain::same_letters(
                (#[trigger] headers[i]).0,
                "transfer-encoding"@,
            ) && lists_chunked(headers[i].1),
{
    assert forall|i: int| 0 <= i < headers.len() implies (text::same_ignoring_case(
        (#[trigger] headers[i]).0,
        "transfer-encoding"@,
    ) <==> plain::same_letters(headers[i].0, "transfer-encoding"@)) && (request::names_chunked(
        headers[i].1,
    ) <==> lists_chunked(headers[i].1)) by {
        plain::law_same_letters(headers[i].0, "transfer-encoding"@);
        lemma_lists_chunked(headers[i].1);
    }
    if request::is_chunked(headers) {
        let i = choose|i: int|
            0 <= i < headers.len() && text::same_ignoring_case(
                (#[trigger] headers[i]).0,
                "transfer-encoding"@,
            ) && request::names_chunked(headers[i].1);
        assert(lists_chunked(headers[i].1));
    }
    if exists|i: int|
        0 <= i < headers.len() && plain::same_letters(
            (#[trigger] headers[i]).0,
            "transfer-encoding"@,
        ) && lists_chunked(headers[i].1) {
        let i = choose|i: int|
            0 <= i < headers.len() && plain::same_letters(
                (#[trigger] headers[i]).0,
                "transfer-encoding"@,
            ) && lists_chunked(headers[i].1);
        assert(request::names_chunked(headers[i].1));
    }
}

/// A part of a list stands between commas.
proof fn lemma_part_of_list(value: Seq<char>, j: int) -> (r: (Seq<char>, Seq<char>))
    requires
        0 <= j < text::split(value, ',').len(),
    ensures
        value == r.0 + text::split(value, ',')[j] + r.1,
        r.0.len() > 0 ==> r.0[r.0.len() - 1] == ',',
        r.1.len() > 0 ==> r.1[0] == ',',
    decreases value.len(),
{
    let none = Seq::<char>::empty();
    if value.contains(',') {
        plain::lemma_first(value, ',');
        let k = text::find(value, ',', 0);
        let a = value.take(k);
        let b = value.skip(k + 1);
        plain::law_cut_at_each(a, ',', b);
        if j == 0 {
            assert(value =~= none + a + (seq![','] + b));
            (none, seq![','] + b)
        } else {
            let (c, d) = lemma_part_of_list(b, j - 1);
            let part = text::split(b, ',')[j - 1];
            assert(text::split(value, ',')[j] == part);
            assert(value =~= (a + seq![','] + c) + part + d);
            (a + seq![','] + c, d)
        }
    } else {
        plain::law_cut_at_each(value, ',', none);
        assert(value =~= none + value + none);
        (none, none)
    }
}

/// What stands between commas is a part of a list.
proof fn lemma_between_commas(a: Seq<char>, part: Seq<char>, b: Seq<char>) -> (j: int)
    requires
        a.len() > 0 ==> a[a.len() - 1] == ',',
        b.len() > 0 ==> b[0] == ',',
        !part.contains(','),
    ensures
        0 <= j < text::split(a + part + b, ',').len(),
        text::split(a + part + b, ',')[j] == part,
    decreases a.len(),
{
    let value = a + part + b;
    if a.len() == 0 {
        if b.len() == 0 {
            assert(value =~= part);
            plain::law_cut_at_each(part, ',', b);
        } else {
            assert(value =~= part + seq![','] + b.skip(1));
            plain::law_cut_at_each(part, ',', b.skip(1));
        }
        0
    } else {
        assert(a.contains(a[a.len() - 1]));
        plain::lemma_first(a, ',');
        let k = text::find(a, ',', 0);
        let c = a.take(k);
        let d = a.skip(k + 1);
        if d.len() > 0 {
            assert(d[d.len() - 1] == a[a.len() - 1]);
        }
        assert(value =~= c + seq![','] + (d + part + b));
        plain::law_cut_at_each(c, ',', d + part + b);
        let j = lemma_between_commas(d, part, b);
        assert(text::split(value, ',')[j + 1] == part);
        j + 1
    }
}

/// Every text is white space, what trimming leaves, and white space.
pub proof fn lemma_around(s: Seq<char>) -> (r: (Seq<char>, Seq<char>))
    ensures
        s == r.0 + text::trim(s) + r.1,
        plain::all_white(r.0),
        plain::all_white(r.1),
        plain::bare(text::trim(s)),
    decreases s.len(),
{
    let none = Seq::<char>::empty();
    if s.len() == 0 || (!plain::white(s[0]) && !plain::white(s[s.len() - 1])) {
        plain::law_trimmed(none, s, none);
        assert(s =~= none + s + none);
        (none, none)
    } else if plain::white(s[0]) {
        let less = s.skip(1);
        let (a, b) = lemma_around(less);
        let t = text::trim(less);
        assert(s =~= seq![s[0]] + less);
        assert(seq![s[0]] + (a + t + b) =~= (seq![s[0]] + a) + t + b);
        assert forall|i: int| 0 <= i < (seq![s[0]] + a).len() implies plain::white(
            #[trigger] (seq![s[0]] + a)[i],
        ) by {
            if i > 0 {
                assert((seq![s[0]] + a)[i] == a[i - 1]);
            }
        }
        plain::law_trimmed(seq![s[0]] + a, t, b);
        (seq![s[0]] + a, b)
    } else {
        let less = s.take(s.len() - 1);
        let c = s[s.len() - 1];
        let (a, b) = lemma_around(less);
        let t = text::trim(less);
        assert(s =~= less.push(c));
        assert((a + t + b).push(c) =~= a + t + b.push(c));
        assert forall|i: int| 0 <= i < b.push(c).len() implies plain::white(
            #[trigger] b.push(c)[i],
        ) by {
            if i < b.len() {
                assert(b.push(c)[i] == b[i]);
            }
        }
        plain::law_trimmed(a, t, b.push(c));
        (a, b.push(c))
    }
}

proof fn lemma_lists_chunked(value: Seq<char>)
    ensures
        request::names_chunked(value) <==> lists_chunked(value),
{
    let word = "chunked"@;
    reveal_strlit("chunked");
    if request::names_chunked(value) {
        let j = choose|j: int|
            0 <= j < text::split(value, ',').len() && text::same_ignoring_case(
                text::trim(#[trigger] text::split(value, ',')[j]),
                word,
            );
        let whole = text::split(value, ',')[j];
        let part = text::trim(whole);
        let (before, after) = lemma_part_of_list(value, j);
        let (lead, tail) = lemma_around(whole);
        plain::law_same_letters(part, word);
        assert(value == before + (lead + part + tail) + after);
    }
    if lists_chunked(value) {
        let (before, lead, part, tail, after) = choose|
            before: Seq<char>,
            lead: Seq<char>,
            part: Seq<char>,
            tail: Seq<char>,
            after: Seq<char>,
        |
            {
                &&& value == #[trigger] (before + (lead + part + tail) + after)
                &&& before.len() > 0 ==> before[before.len() - 1] == ','
                &&& after.len() > 0 ==> after[0] == ','
                &&& plain::all_white(lead)
                &&& plain::all_white(tail)
                &&& plain::same_letters(part, "chunked"@)
            };
        let whole = lead + part + tail;
        assert forall|i: int| 0 <= i < part.len() implies !plain::white(#[trigger] part[i])
            && part[i] != ',' by {
            assert(plain::same_letter(part[i], word[i]));
        }
        assert forall|i: int| 0 <= i < whole.len() implies whole[i] != ',' by {
            if i < lead.len() {
                assert(plain::white(lead[i]));
            } else if i >= lead.len() + part.len() {
                assert(plain::white(tail[i - lead.len() - part.len()]));
            } else {
                assert(whole[i] == part[i - lead.len()]);
            }
        }
        let j = lemma_between_commas(before, whole, after);
        plain::law_trimmed(lead, part, tail);
        plain::law_same_letters(part, word);
        assert(text::split(value, ',')[j] == whole);
    }
}

/// What an upstream server is told of the client: the host that the first `Host` header
/// names, or none, and the protocol that the first `X-Forwarded-Proto` header names, else
/// `http`.
pub proof fn law_told_of_the_client(request: RequestView)
    ensures
        forall|i: int| #[trigger]
            plain::first_named(request.headers, "host"@, i) ==> upstream::client_host(request)
                == request.headers[i].1,
        plain::none_named(request.headers, "host"@) ==> upstream::client_host(request).len() == 0,
        forall|i: int| #[trigger]
            plain::first_named(request.headers, "x-forwarded-proto"@, i)
                ==> request::client_protocol(request) == request.headers[i].1,
        plain::none_named(request.headers, "x-forwarded-proto"@) ==> request::client_protocol(
            request,
        ) == seq!['h', 't', 't', 'p'],
{
    law_first_header(request.headers, "host"@);
    law_first_header(request.headers, "x-forwarded-proto"@);
    reveal_strlit("");
    reveal_strlit("http");
    assert("http"@ =~= seq!['h', 't', 't', 'p']);
}

} // verus!
