//! Messages as they are written and read back: lines, headers, and where a head ends.
use crate::bytes;
use crate::number;
use crate::request;
use crate::request::{RequestError, RequestView};
use crate::response;
use crate::rule;
use crate::runtime::RuntimeConfig;
use crate::text;
use crate::upstream;
use vstd::prelude::*;
use vstd::utf8::*;

verus! {

/// A carriage return, line feed pair.
pub open spec fn crlf() -> Seq<char> {
    seq!['\r', '\n']
}

/// Whether a carriage return, line feed pair stands in `s` at `i`.
pub open spec fn crlf_at(s: Seq<char>, i: int) -> bool {
    0 <= i && i + 1 < s.len() && s[i] == '\r' && s[i + 1] == '\n'
}

/// Whether `s` holds no carriage return, line feed pair.
pub open spec fn one_line(s: Seq<char>) -> bool {
    forall|i: int| !crlf_at(s, i)
}

/// Whether an empty line stands in `s` at `i`.
pub open spec fn blank_at(s: Seq<char>, i: int) -> bool {
    crlf_at(s, i) && crlf_at(s, i + 2)
}

/// The lines, each ended by a carriage return, line feed pair.
pub open spec fn ended(lines: Seq<Seq<char>>) -> Seq<char>
    decreases lines.len(),
{
    if lines.len() == 0 {
        Seq::empty()
    } else {
        lines[0] + crlf() + ended(lines.skip(1))
    }
}

/// The lines, with a carriage return, line feed pair between them.
pub open spec fn joined(lines: Seq<Seq<char>>) -> Seq<char>
    decreases lines.len(),
{
    if lines.len() == 0 {
        Seq::empty()
    } else if lines.len() == 1 {
        lines[0]
    } else {
        lines[0] + crlf() + joined(lines.skip(1))
    }
}

/// Whether `lines` can be the lines of a head: none holds the end of another, and none
/// but the first is empty.
pub open spec fn are_lines(lines: Seq<Seq<char>>) -> bool {
    &&& lines.len() > 0
    &&& forall|i: int| 0 <= i < lines.len() ==> one_line(#[trigger] lines[i])
    &&& forall|i: int| 1 <= i < lines.len() ==> (#[trigger] lines[i]).len() > 0
}

/// Ending lines and joining them differ by the last end.
proof fn lemma_ended(lines: Seq<Seq<char>>)
    requires
        lines.len() > 0,
    ensures
        ended(lines) == joined(lines) + crlf(),
    decreases lines.len(),
{
    if lines.len() == 1 {
        assert(ended(lines.skip(1)) == Seq::<char>::empty());
        assert(ended(lines) =~= joined(lines) + crlf());
    } else {
        lemma_ended(lines.skip(1));
        assert(ended(lines) =~= joined(lines) + crlf());
    }
}

/// The first pair after a line is its end.
proof fn lemma_first_crlf(a: Seq<char>, b: Seq<char>)
    requires
        one_line(a),
    ensures
        text::find_crlf(a + crlf() + b, 0) == a.len(),
{
    let s = a + crlf() + b;
    text::lemma_find_crlf(s, 0);
    let f = text::find_crlf(s, 0);
    assert(s[a.len() as int] == '\r' && s[a.len() as int + 1] == '\n');
    if f < a.len() {
        assert(s[f] == '\r' && s[f + 1] == '\n');
        if f + 1 < a.len() {
            assert(crlf_at(a, f));
        }
    }
}

/// Cutting a text after its first line.
proof fn lemma_split_first(a: Seq<char>, b: Seq<char>)
    requires
        one_line(a),
    ensures
        text::split_crlf(a + crlf() + b) == seq![a] + text::split_crlf(b),
{
    let s = a + crlf() + b;
    lemma_first_crlf(a, b);
    assert(s.take(a.len() as int) =~= a);
    assert(s.skip(a.len() as int + 2) =~= b);
}

/// A line has no parts.
proof fn lemma_split_line(a: Seq<char>)
    requires
        one_line(a),
    ensures
        text::split_crlf(a) == seq![a],
{
    text::lemma_find_crlf(a, 0);
    let f = text::find_crlf(a, 0);
    if f < a.len() {
        assert(crlf_at(a, f));
    }
}

/// Lines that were joined are cut apart as they were.
proof fn lemma_split_joined(lines: Seq<Seq<char>>)
    requires
        lines.len() > 0,
        forall|i: int| 0 <= i < lines.len() ==> one_line(#[trigger] lines[i]),
    ensures
        text::split_crlf(joined(lines)) == lines,
    decreases lines.len(),
{
    if lines.len() == 1 {
        lemma_split_line(lines[0]);
        assert(seq![lines[0]] =~= lines);
    } else {
        let rest = lines.skip(1);
        assert forall|i: int| 0 <= i < rest.len() implies one_line(#[trigger] rest[i]) by {
            assert(rest[i] == lines[i + 1]);
        }
        lemma_split_joined(rest);
        lemma_split_first(lines[0], joined(rest));
        assert(seq![lines[0]] + rest =~= lines);
    }
}

/// The parts of a text hold no pair.
proof fn lemma_parts_are_lines(s: Seq<char>)
    ensures
        forall|i: int|
            0 <= i < text::split_crlf(s).len() ==> one_line(#[trigger] text::split_crlf(s)[i]),
    decreases s.len(),
{
    text::lemma_find_crlf(s, 0);
    let k = text::find_crlf(s, 0);
    let parts = text::split_crlf(s);
    if k + 1 < s.len() {
        let rest = text::split_crlf(s.skip(k + 2));
        lemma_parts_are_lines(s.skip(k + 2));
        let first = s.take(k);
        assert forall|i: int| !crlf_at(first, i) by {
            if crlf_at(first, i) {
                assert(s[i] == '\r' && s[i + 1] == '\n');
            }
        }
        assert forall|i: int| 0 <= i < parts.len() implies one_line(#[trigger] parts[i]) by {
            if i > 0 {
                assert(parts[i] == rest[i - 1]);
            }
        }
    } else {
        assert forall|i: int| !crlf_at(s, i) by {
            if crlf_at(s, i) {
                assert(s[i] == '\r' && s[i + 1] == '\n');
            }
        }
    }
}

/// No empty line stands in a head before its end.
proof fn lemma_no_blank_sooner(lines: Seq<Seq<char>>, i: int)
    requires
        are_lines(lines),
        0 <= i < joined(lines).len(),
    ensures
        !blank_at(joined(lines) + crlf() + crlf(), i),
    decreases lines.len(),
{
    let head = joined(lines) + crlf() + crlf();
    let first = lines[0];
    if blank_at(head, i) {
        if lines.len() == 1 {
            if i + 1 < first.len() {
                assert(crlf_at(first, i));
            } else {
                assert(head[i + 1] == '\r');
            }
        } else {
            let rest = lines.skip(1);
            assert forall|k: int| 0 <= k < rest.len() implies one_line(#[trigger] rest[k]) by {
                assert(rest[k] == lines[k + 1]);
            }
            assert forall|k: int| 1 <= k < rest.len() implies (#[trigger] rest[k]).len() > 0 by {
                assert(rest[k] == lines[k + 1]);
            }
            let tail = joined(rest) + crlf() + crlf();
            assert(head =~= first + crlf() + tail);
            let n = first.len() as int;
            if i + 1 < n {
                assert(crlf_at(first, i));
            } else if i + 1 == n {
                assert(head[i + 1] == '\r');
            } else if i == n {
                assert(head[n + 2] == tail[0] && head[n + 3] == tail[1]);
                let second = lines[1];
                assert(rest[0] == second);
                if second.len() == 1 {
                    assert(tail[1] == '\r');
                } else {
                    assert(second[0] == tail[0] && second[1] == tail[1]);
                    assert(crlf_at(second, 0));
                }
            } else if i == n + 1 {
                assert(head[i] == '\n');
            } else {
                assert(head[i] == tail[i - n - 2] && head[i + 1] == tail[i - n - 1]);
                assert(head[i + 2] == tail[i - n] && head[i + 3] == tail[i - n + 1]);
                assert(blank_at(tail, i - n - 2));
                lemma_no_blank_sooner(rest, i - n - 2);
            }
        }
    }
}

/// An empty line among bytes is an empty line of the text.
proof fn lemma_blank_bytes(s: Seq<char>, j: int) -> (i: int)
    requires
        bytes::blank_line_at(encode_utf8(s), j),
    ensures
        blank_at(s, i),
        j == encode_utf8(s.take(i)).len(),
    decreases s.len(),
{
    let all = encode_utf8(s);
    let rest = s.drop_first();
    let head = encode_scalar(s[0] as u32);
    assert(all == head + encode_utf8(rest));
    bytes::lemma_encode_one(s[0]);
    if j < head.len() {
        assert(all[j] == head[j]);
        assert(s[0] == '\r');
        let run = seq!['\r', '\n', '\r', '\n'];
        lemma_ascii_runs(s, run);
        assert(s.take(0) =~= Seq::<char>::empty());
        assert(s[0] == run[0] && s[1] == run[1] && s[2] == run[2] && s[3] == run[3]);
        0
    } else {
        assert(all[j] == encode_utf8(rest)[j - head.len()]);
        assert(all[j + 1] == encode_utf8(rest)[j + 1 - head.len()]);
        assert(all[j + 2] == encode_utf8(rest)[j + 2 - head.len()]);
        assert(all[j + 3] == encode_utf8(rest)[j + 3 - head.len()]);
        let i = lemma_blank_bytes(rest, j - head.len());
        assert(s.take(i + 1).drop_first() =~= rest.take(i));
        assert(s.take(i + 1)[0] == s[0]);
        assert(rest[i] == s[i + 1] && rest[i + 1] == s[i + 2] && rest[i + 2] == s[i + 3] && rest[i
            + 3] == s[i + 4]);
        i + 1
    }
}

/// A text whose bytes start with those of ASCII characters starts with them.
proof fn lemma_ascii_runs(s: Seq<char>, run: Seq<char>)
    requires
        forall|k: int| 0 <= k < run.len() ==> (#[trigger] run[k]) as u32 <= 127,
        run.len() <= encode_utf8(s).len(),
        forall|k: int|
            0 <= k < run.len() ==> encode_utf8(s)[k] == (#[trigger] run[k]) as u32,
    ensures
        run.len() <= s.len(),
        forall|k: int| 0 <= k < run.len() ==> s[k] == #[trigger] run[k],
    decreases run.len(),
{
    if run.len() > 0 {
        let all = encode_utf8(s);
        let rest = s.drop_first();
        let head = encode_scalar(s[0] as u32);
        assert(all == head + encode_utf8(rest));
        bytes::lemma_encode_one(s[0]);
        bytes::lemma_encode_one(run[0]);
        char_is_scalar(s[0]);
        assert(head.len() > 0);
        assert(all[0] == head[0]);
        assert(head.len() == 1);
        let less = run.skip(1);
        assert forall|k: int| 0 <= k < less.len() implies (#[trigger] less[k]) as u32 <= 127
            && encode_utf8(rest)[k] == less[k] as u32 by {
            assert(less[k] == run[k + 1]);
            assert(all[k + 1] == encode_utf8(rest)[k]);
        }
        lemma_ascii_runs(rest, less);
        assert forall|k: int| 0 <= k < run.len() implies s[k] == #[trigger] run[k] by {
            if k > 0 {
                assert(run[k] == less[k - 1]);
                assert(s[k] == rest[k - 1]);
            }
        }
    }
}

/// A head whose lines are `lines` ends where they do, whatever follows it, and its lines
/// read back.
pub proof fn law_head_ends(lines: Seq<Seq<char>>, body: Seq<u8>)
    requires
        are_lines(lines),
    ensures
        ({
            let message = encode_utf8(ended(lines) + crlf()) + body;
            let end = encode_utf8(joined(lines)).len();
            &&& bytes::head_end(message) == Some(end)
            &&& message.take(end as int) == encode_utf8(joined(lines))
            &&& valid_utf8(message.take(end as int))
            &&& text::split_crlf(decode_utf8(message.take(end as int))) == lines
            &&& message.skip(end as int + 4) == body
            &&& encode_utf8(ended(lines) + crlf()).len() == end + 4
        }),
{
    let start = joined(lines);
    let head = start + crlf() + crlf();
    let end = encode_utf8(start).len() as int;
    lemma_ended(lines);
    assert(ended(lines) + crlf() =~= head);
    let tail = crlf() + crlf();
    assert(head =~= start + tail);
    bytes::lemma_encode_concat(start, tail);
    lemma_encode_crlf();
    let message = encode_utf8(head) + body;
    assert(encode_utf8(head) == encode_utf8(start) + encode_utf8(tail));
    assert(message[end] == 13 && message[end + 1] == 10 && message[end + 2] == 13 && message[end
        + 3] == 10);
    assert(bytes::blank_line_at(message, end));
    bytes::lemma_head_end(message, 0);
    let found = bytes::head_end(message)->0 as int;
    if found < end {
        assert(bytes::blank_line_at(encode_utf8(head), found));
        let i = lemma_blank_bytes(head, found);
        if i < start.len() {
            lemma_no_blank_sooner(lines, i);
        } else {
            assert(head.take(i) =~= start + tail.take(i - start.len()));
            bytes::lemma_encode_concat(start, tail.take(i - start.len()));
        }
    }
    assert(message.take(end) =~= encode_utf8(start));
    assert(message.skip(end + 4) =~= body);
    encode_utf8_valid_utf8(start);
    encode_utf8_decode_utf8(start);
    lemma_split_joined(lines);
}

/// The bytes of an empty line.
proof fn lemma_encode_crlf()
    ensures
        encode_utf8(crlf() + crlf()) == seq![13u8, 10u8, 13u8, 10u8],
{
    let s = crlf() + crlf();
    bytes::lemma_encode_one('\r');
    bytes::lemma_encode_one('\n');
    reveal_with_fuel(encode_utf8, 5);
    assert(s.drop_first() =~= seq!['\n', '\r', '\n']);
    assert(s.drop_first().drop_first() =~= seq!['\r', '\n']);
    assert(s.drop_first().drop_first().drop_first() =~= seq!['\n']);
    assert(s.drop_first().drop_first().drop_first().drop_first() =~= Seq::<char>::empty());
    assert(encode_utf8(s) =~= seq![13u8, 10u8, 13u8, 10u8]);
}

/// A header as it is written.
pub open spec fn header_line(name: Seq<char>, value: Seq<char>) -> Seq<char> {
    name + ": "@ + value
}

/// Headers as they are written, a line each.
pub open spec fn header_lines(headers: Seq<(Seq<char>, Seq<char>)>) -> Seq<Seq<char>> {
    headers.map_values(|h: (Seq<char>, Seq<char>)| header_line(h.0, h.1))
}

/// Whether a name and a value can be written as a header and read back: neither holds
/// the end of a line or white space at its ends, and the name no colon.
pub open spec fn is_header(name: Seq<char>, value: Seq<char>) -> bool {
    &&& one_line(name)
    &&& one_line(value)
    &&& !name.contains(':')
    &&& text::trim(name) == name
    &&& text::trim(value) == value
}

/// Whether all `headers` can be written and read back.
pub open spec fn are_headers(headers: Seq<(Seq<char>, Seq<char>)>) -> bool {
    forall|i: int| 0 <= i < headers.len() ==> is_header((#[trigger] headers[i]).0, headers[i].1)
}

/// A header reads back.
proof fn lemma_header_line(name: Seq<char>, value: Seq<char>)
    requires
        is_header(name, value),
    ensures
        one_line(header_line(name, value)),
        header_line(name, value).len() > 0,
        text::split_once(header_line(name, value), ':') == Some((name, " "@ + value)),
        text::trim(" "@ + value) == value,
{
    reveal_strlit(": ");
    reveal_strlit(" ");
    let line = header_line(name, value);
    let n = name.len() as int;
    assert(line[n] == ':' && line[n + 1] == ' ');
    assert forall|i: int| 0 <= i < n implies line[i] != ':' by {
        assert(name.contains(name[i]));
    }
    text::lemma_find_unique(line, ':', 0, n);
    assert(line.take(n) =~= name);
    assert(line.skip(n + 1) =~= " "@ + value);
    assert((" "@ + value).skip(1) =~= value);
    assert forall|i: int| !crlf_at(line, i) by {
        if crlf_at(line, i) {
            if i + 1 < n {
                assert(crlf_at(name, i));
            } else if i >= n + 2 {
                assert(crlf_at(value, i - n - 2));
            }
        }
    }
}

/// Headers read back.
proof fn lemma_headers_read_back(headers: Seq<(Seq<char>, Seq<char>)>)
    requires
        are_headers(headers),
    ensures
        request::headers_in(header_lines(headers)) == Some(headers),
    decreases headers.len(),
{
    let lines = header_lines(headers);
    if headers.len() == 0 {
        assert(headers =~= Seq::<(Seq<char>, Seq<char>)>::empty());
    } else {
        let (name, value) = headers[0];
        let rest = headers.skip(1);
        assert forall|i: int| 0 <= i < rest.len() implies is_header(
            (#[trigger] rest[i]).0,
            rest[i].1,
        ) by {
            assert(rest[i] == headers[i + 1]);
        }
        assert(is_header(headers[0].0, headers[0].1));
        lemma_headers_read_back(rest);
        lemma_header_line(name, value);
        assert(lines[0] == header_line(name, value));
        assert(lines.skip(1) =~= header_lines(rest));
        assert(seq![(name, value)] + rest =~= headers);
    }
}

/// The lines of headers can follow the first line of a head.
proof fn lemma_header_lines(first: Seq<char>, headers: Seq<(Seq<char>, Seq<char>)>)
    requires
        one_line(first),
        are_headers(headers),
    ensures
        are_lines(seq![first] + header_lines(headers)),
        (seq![first] + header_lines(headers)).skip(1) == header_lines(headers),
{
    let lines = seq![first] + header_lines(headers);
    assert forall|i: int| 0 <= i < lines.len() implies one_line(#[trigger] lines[i]) && (i >= 1
        ==> lines[i].len() > 0) by {
        if i > 0 {
            let h = headers[i - 1];
            assert(is_header(h.0, h.1));
            lemma_header_line(h.0, h.1);
            assert(lines[i] == header_line(h.0, h.1));
        }
    }
    assert(lines.skip(1) =~= header_lines(headers));
}

/// What is written with a first line, headers and a body reads back: the head ends where
/// its lines do, its lines are the first line and the headers, and the body follows.
pub proof fn law_message_reads_back(
    first: Seq<char>,
    headers: Seq<(Seq<char>, Seq<char>)>,
    body: Seq<u8>,
)
    requires
        one_line(first),
        are_headers(headers),
    ensures
        ({
            let lines = seq![first] + header_lines(headers);
            let message = encode_utf8(ended(lines) + crlf()) + body;
            let end = bytes::head_end(message);
            &&& end is Some
            &&& valid_utf8(message.take(end->0 as int))
            &&& text::split_crlf(decode_utf8(message.take(end->0 as int))) == lines
            &&& request::headers_in(lines.skip(1)) == Some(headers)
            &&& message.skip(end->0 as int + 4) == body
            &&& message.len() == end->0 + 4 + body.len()
        }),
{
    lemma_header_lines(first, headers);
    lemma_headers_read_back(headers);
    law_head_ends(seq![first] + header_lines(headers), body);
}

/// Text without white space at its ends keeps them.
proof fn lemma_trimmed(s: Seq<char>)
    requires
        s.len() > 0 ==> !text::is_space(s[0]) && !text::is_space(s.last()),
    ensures
        text::trim(s) == s,
{
}

/// The headers of a response that this library writes.
pub open spec fn response_headers(
    content_type: Seq<char>,
    content_length: nat,
    keep_alive: bool,
    runtime: RuntimeConfig,
) -> Seq<(Seq<char>, Seq<char>)> {
    seq![
        ("Server"@, "pear"@),
        ("Content-Type"@, content_type),
        ("Content-Length"@, number::decimal(content_length)),
        ("Cache-Control"@, "no-cache"@),
    ] + connection_pairs(keep_alive, runtime)
}

/// The headers that say whether the connection stays open, and for how long.
pub open spec fn connection_pairs(keep_alive: bool, runtime: RuntimeConfig) -> Seq<
    (Seq<char>, Seq<char>),
> {
    seq![
        (
            "Connection"@,
            if keep_alive {
                "keep-alive"@
            } else {
                "close"@
            },
        ),
        (
            "Keep-Alive"@,
            "timeout="@ + number::decimal(runtime.keep_alive_timeout_secs as nat) + ", max="@
                + number::decimal(runtime.keep_alive_max as nat),
        ),
    ]
}

/// Whether `s` holds no carriage return.
pub open spec fn no_return(s: Seq<char>) -> bool {
    forall|i: int| 0 <= i < s.len() ==> #[trigger] s[i] != '\r'
}

/// A text without a carriage return is one line.
proof fn lemma_no_return(s: Seq<char>)
    requires
        no_return(s),
    ensures
        one_line(s),
{
}

/// Digits are digits, and there is one.
proof fn lemma_digits(n: nat)
    ensures
        no_return(number::decimal(n)),
        number::decimal(n).len() > 0,
        !text::is_space(number::decimal(n)[0]),
        !text::is_space(number::decimal(n).last()),
        text::trim(number::decimal(n)) == number::decimal(n),
{
    number::lemma_decimal(n);
    let s = number::decimal(n);
    assert forall|i: int| 0 <= i < s.len() implies #[trigger] s[i] != '\r' && !text::is_space(
        s[i],
    ) by {
        assert(number::is_digit(s[i]));
    }
}

/// The headers about the connection read back, and are written as they are.
proof fn lemma_connection_pairs(keep_alive: bool, runtime: RuntimeConfig)
    ensures
        are_headers(connection_pairs(keep_alive, runtime)),
        response::connection_text(runtime, keep_alive) == ended(
            header_lines(connection_pairs(keep_alive, runtime)),
        ),
{
    let pairs = connection_pairs(keep_alive, runtime);
    let timeout = number::decimal(runtime.keep_alive_timeout_secs as nat);
    let max = number::decimal(runtime.keep_alive_max as nat);
    lemma_digits(runtime.keep_alive_timeout_secs as nat);
    lemma_digits(runtime.keep_alive_max as nat);
    reveal_strlit("Connection");
    reveal_strlit("Connection: ");
    reveal_strlit("keep-alive");
    reveal_strlit("close");
    reveal_strlit("Keep-Alive");
    reveal_strlit("\r\nKeep-Alive: timeout=");
    reveal_strlit("timeout=");
    reveal_strlit(", max=");
    reveal_strlit("\r\n");
    reveal_strlit(": ");
    let state = pairs[0].1;
    let limits = pairs[1].1;
    assert(is_header("Connection"@, state));
    assert(no_return(limits));
    assert(limits[0] == 't' && limits.last() == max.last());
    assert(is_header("Keep-Alive"@, limits));
    assert("Connection: "@ =~= "Connection"@ + ": "@);
    assert("\r\nKeep-Alive: timeout="@ =~= crlf() + "Keep-Alive"@ + ": "@ + "timeout="@);
    assert("\r\n"@ =~= crlf());
    let lines = header_lines(pairs);
    reveal_with_fuel(ended, 3);
    assert(lines[0] == header_line("Connection"@, state));
    assert(lines.skip(1)[0] == header_line("Keep-Alive"@, limits));
    assert(lines.skip(1).skip(1).len() == 0);
    assert(response::connection_text(runtime, keep_alive) =~= ended(lines));
}

/// Lines that are ended one part after another.
proof fn lemma_ended_concat(a: Seq<Seq<char>>, b: Seq<Seq<char>>)
    ensures
        ended(a + b) == ended(a) + ended(b),
    decreases a.len(),
{
    if a.len() == 0 {
        assert(a + b =~= b);
        assert(ended(a) + ended(b) =~= ended(b));
    } else {
        lemma_ended_concat(a.skip(1), b);
        assert((a + b).skip(1) =~= a.skip(1) + b);
        assert(ended(a + b) =~= ended(a) + ended(b));
    }
}

/// The first line of a response.
pub open spec fn status_line(status: u16, reason: Seq<char>) -> Seq<char> {
    "HTTP/1.1 "@ + number::decimal(status as nat) + " "@ + reason
}

/// The head of a response is its first line and its headers.
proof fn lemma_response_head(
    status: u16,
    reason: Seq<char>,
    content_type: Seq<char>,
    content_length: nat,
    keep_alive: bool,
    runtime: RuntimeConfig,
)
    requires
        one_line(reason),
        one_line(content_type),
        text::trim(content_type) == content_type,
    ensures
        one_line(status_line(status, reason)),
        are_headers(response_headers(content_type, content_length, keep_alive, runtime)),
        response::head_text(status, reason, content_type, content_length, keep_alive, runtime)
            == ended(
            seq![status_line(status, reason)] + header_lines(
                response_headers(content_type, content_length, keep_alive, runtime),
            ),
        ) + crlf(),
{
    let length = number::decimal(content_length);
    let first = status_line(status, reason);
    let code = number::decimal(status as nat);
    lemma_digits(status as nat);
    lemma_digits(content_length);
    lemma_connection_pairs(keep_alive, runtime);
    reveal_strlit("HTTP/1.1 ");
    reveal_strlit(" ");
    reveal_strlit("Server");
    reveal_strlit("pear");
    reveal_strlit("Content-Type");
    reveal_strlit("Content-Length");
    reveal_strlit("Cache-Control");
    reveal_strlit("no-cache");
    reveal_strlit(": ");
    reveal_strlit("\r\n");
    reveal_strlit("\r\nServer: pear\r\nContent-Type: ");
    reveal_strlit("\r\nContent-Length: ");
    reveal_strlit("\r\nCache-Control: no-cache\r\n");
    let lead = "HTTP/1.1 "@ + code + " "@;
    assert(no_return(lead));
    assert forall|i: int| !crlf_at(first, i) by {
        if crlf_at(first, i) {
            if i >= lead.len() {
                assert(crlf_at(reason, i - lead.len()));
            } else {
                assert(first[i] == lead[i]);
            }
        }
    }
    let own = seq![
        ("Server"@, "pear"@),
        ("Content-Type"@, content_type),
        ("Content-Length"@, length),
        ("Cache-Control"@, "no-cache"@),
    ];
    let pairs = connection_pairs(keep_alive, runtime);
    assert(is_header("Server"@, "pear"@));
    assert(is_header("Content-Type"@, content_type));
    lemma_no_return(length);
    assert(is_header("Content-Length"@, length));
    assert(is_header("Cache-Control"@, "no-cache"@));
    assert(are_headers(own));
    let all = own + pairs;
    assert forall|i: int| 0 <= i < all.len() implies is_header((#[trigger] all[i]).0, all[i].1) by {
        if i < 4 {
            assert(all[i] == own[i]);
        } else {
            assert(all[i] == pairs[i - 4]);
        }
    }
    let own_lines = header_lines(own);
    assert(header_lines(all) =~= own_lines + header_lines(pairs));
    let lines = seq![first] + header_lines(all);
    assert(lines =~= (seq![first] + own_lines) + header_lines(pairs));
    lemma_ended_concat(seq![first] + own_lines, header_lines(pairs));
    let start = seq![first] + own_lines;
    reveal_with_fuel(ended, 6);
    assert(start[0] == first);
    assert(start.skip(1)[0] == header_line("Server"@, "pear"@));
    assert(start.skip(1).skip(1)[0] == header_line("Content-Type"@, content_type));
    assert(start.skip(1).skip(1).skip(1)[0] == header_line("Content-Length"@, length));
    assert(start.skip(1).skip(1).skip(1).skip(1)[0] == header_line(
        "Cache-Control"@,
        "no-cache"@,
    ));
    assert(start.skip(1).skip(1).skip(1).skip(1).skip(1).len() == 0);
    assert("\r\nServer: pear\r\nContent-Type: "@ =~= crlf() + "Server"@ + ": "@ + "pear"@ + crlf()
        + "Content-Type"@ + ": "@);
    assert("\r\nContent-Length: "@ =~= crlf() + "Content-Length"@ + ": "@);
    assert("\r\nCache-Control: no-cache\r\n"@ =~= crlf() + "Cache-Control"@ + ": "@ + "no-cache"@
        + crlf());
    assert("\r\n"@ =~= crlf());
    let written = first + "\r\nServer: pear\r\nContent-Type: "@ + content_type
        + "\r\nContent-Length: "@ + length + "\r\nCache-Control: no-cache\r\n"@;
    assert(written =~= ended(start));
    assert(response::head_text(
        status,
        reason,
        content_type,
        content_length,
        keep_alive,
        runtime,
    ) =~= written + response::connection_text(runtime, keep_alive) + crlf());
}

/// A response reads back: its head ends where its body starts, its first line and its
/// headers are those that were written, and the length that it announces is that of its
/// body.
pub proof fn law_response_reads_back(
    status: u16,
    reason: Seq<char>,
    content_type: Seq<char>,
    body: Seq<u8>,
    keep_alive: bool,
    runtime: RuntimeConfig,
)
    requires
        one_line(reason),
        one_line(content_type),
        text::trim(content_type) == content_type,
        body.len() <= usize::MAX,
    ensures
        ({
            let message = response::response_bytes(
                status,
                reason,
                content_type,
                body,
                keep_alive,
                runtime,
            );
            let end = bytes::head_end(message);
            let lines = text::split_crlf(decode_utf8(message.take(end->0 as int)));
            &&& end is Some
            &&& lines[0] == status_line(status, reason)
            &&& request::headers_in(lines.skip(1)) == Some(
                response_headers(content_type, body.len(), keep_alive, runtime),
            )
            &&& upstream::announced_length(message.take(end->0 as int)) == Some(body.len())
            &&& message.skip(end->0 as int + 4) == body
        }),
{
    let first = status_line(status, reason);
    let headers = response_headers(content_type, body.len(), keep_alive, runtime);
    lemma_response_head(status, reason, content_type, body.len(), keep_alive, runtime);
    law_message_reads_back(first, headers, body);
    let lines = seq![first] + header_lines(headers);
    lemma_header_lines(first, headers);
    number::law_decimal_read_back(body.len(), usize::MAX as nat);
    lemma_digits(body.len());
    let own = header_lines(headers);
    assert(own[0] == header_line("Server"@, "pear"@));
    assert(own[1] == header_line("Content-Type"@, content_type));
    assert(own[2] == header_line("Content-Length"@, number::decimal(body.len())));
    assert(is_header(headers[0].0, headers[0].1));
    assert(is_header(headers[1].0, headers[1].1));
    assert(is_header(headers[2].0, headers[2].1));
    lemma_header_line("Server"@, "pear"@);
    lemma_header_line("Content-Type"@, content_type);
    lemma_header_line("Content-Length"@, number::decimal(body.len()));
    reveal_strlit("Server");
    reveal_strlit("Content-Type");
    reveal_strlit("Content-Length");
    reveal_strlit("content-length");
    assert(text::same_ignoring_case("Content-Length"@, "content-length"@));
    assert(own.skip(1)[0] == own[1]);
    assert(own.skip(1).skip(1)[0] == own[2]);
    reveal_with_fuel(upstream::length_among, 4);
}

/// Trimming leaves a part of a text, without white space at its ends.
proof fn lemma_trim(s: Seq<char>)
    ensures
        ({
            let t = text::trim(s);
            &&& t.len() > 0 ==> !text::is_space(t[0]) && !text::is_space(t.last())
            &&& text::trim(t) == t
            &&& t.len() <= s.len()
            &&& exists|a: int| 0 <= a && a + t.len() <= s.len() && t == #[trigger] s.subrange(
                a,
                a + t.len(),
            )
        }),
{
    let p = |c: char| text::is_space(c);
    let u = text::trim_start_by(s, p);
    lemma_trim_start(s, p);
    lemma_trim_end(u, p);
    let t = text::trim_end_by(u, p);
    assert(text::trim(s) == t);
    let a = s.len() - u.len();
    if t.len() > 0 {
        assert(t[0] == u[0]);
        assert(!p(u[0]) && !p(t.last()));
    }
    lemma_trimmed(t);
    assert(t =~= s.subrange(a, a + t.len()));
    assert(0 <= a && a + t.len() <= s.len());
}

proof fn lemma_trim_start(s: Seq<char>, p: spec_fn(char) -> bool)
    ensures
        text::trim_start_by(s, p).len() <= s.len(),
        text::trim_start_by(s, p) == s.skip(s.len() - text::trim_start_by(s, p).len()),
        text::trim_start_by(s, p).len() > 0 ==> !p(text::trim_start_by(s, p)[0]),
    decreases s.len(),
{
    if s.len() > 0 && p(s[0]) {
        lemma_trim_start(s.skip(1), p);
    }
    assert(text::trim_start_by(s, p) =~= s.skip(s.len() - text::trim_start_by(s, p).len()));
}

proof fn lemma_trim_end(s: Seq<char>, p: spec_fn(char) -> bool)
    ensures
        text::trim_end_by(s, p).len() <= s.len(),
        text::trim_end_by(s, p) == s.take(text::trim_end_by(s, p).len() as int),
        text::trim_end_by(s, p).len() > 0 ==> !p(text::trim_end_by(s, p).last()),
    decreases s.len(),
{
    if s.len() > 0 && p(s.last()) {
        lemma_trim_end(s.drop_last(), p);
    }
    assert(text::trim_end_by(s, p) =~= s.take(text::trim_end_by(s, p).len() as int));
}

/// A part of a line is one line, and holds no character that the line does not.
proof fn lemma_part_of_line(s: Seq<char>, part: Seq<char>, a: int, c: char)
    requires
        0 <= a,
        a + part.len() <= s.len(),
        part == s.subrange(a, a + part.len()),
    ensures
        one_line(s) ==> one_line(part),
        !s.contains(c) ==> !part.contains(c),
{
    if one_line(s) {
        assert forall|i: int| !crlf_at(part, i) by {
            if crlf_at(part, i) {
                assert(crlf_at(s, a + i));
            }
        }
    }
    if part.contains(c) {
        let i = choose|i: int| 0 <= i < part.len() && part[i] == c;
        assert(s[a + i] == c);
    }
}

/// The name and the value of a header line, trimmed, can be written and read back.
proof fn lemma_parsed_header(line: Seq<char>)
    requires
        one_line(line),
        text::split_once(line, ':') is Some,
    ensures
        ({
            let (name, value) = text::split_once(line, ':')->0;
            is_header(text::trim(name), text::trim(value))
        }),
{
    let (name, value) = text::split_once(line, ':')->0;
    text::lemma_find(line, ':', 0);
    let k = text::find(line, ':', 0);
    assert(name =~= line.subrange(0, 0int + name.len()));
    assert(value =~= line.subrange(k + 1, k + 1 + value.len()));
    lemma_part_of_line(line, name, 0, ':');
    lemma_part_of_line(line, value, k + 1, ':');
    assert(!name.contains(':'));
    lemma_trim(name);
    lemma_trim(value);
    let t = text::trim(name);
    let a = choose|a: int|
        0 <= a && a + t.len() <= name.len() && t == #[trigger] name.subrange(a, a + t.len());
    lemma_part_of_line(name, t, a, ':');
    let u = text::trim(value);
    let b = choose|b: int|
        0 <= b && b + u.len() <= value.len() && u == #[trigger] value.subrange(b, b + u.len());
    lemma_part_of_line(value, u, b, ':');
}

/// The headers among `lines` that a client gets: all but those about one connection
/// only.
pub open spec fn kept(lines: Seq<Seq<char>>) -> Seq<(Seq<char>, Seq<char>)>
    decreases lines.len(),
{
    if lines.len() == 0 {
        Seq::empty()
    } else {
        match text::split_once(lines[0], ':') {
            Some((name, value)) if !upstream::is_hop_by_hop(text::trim(name)) => seq![
                (text::trim(name), text::trim(value)),
            ] + kept(lines.skip(1)),
            _ => kept(lines.skip(1)),
        }
    }
}

/// What is passed to a client are the headers that it gets, a line each.
proof fn lemma_kept(lines: Seq<Seq<char>>)
    requires
        forall|i: int| 0 <= i < lines.len() ==> one_line(#[trigger] lines[i]),
        upstream::passed_to_client(lines) is Some,
    ensures
        are_headers(kept(lines)),
        upstream::passed_to_client(lines) == Some(ended(header_lines(kept(lines)))),
    decreases lines.len(),
{
    let all = kept(lines);
    if lines.len() > 0 {
        let rest = lines.skip(1);
        assert forall|i: int| 0 <= i < rest.len() implies one_line(#[trigger] rest[i]) by {
            assert(rest[i] == lines[i + 1]);
        }
        lemma_kept(rest);
        let more = kept(rest);
        if lines[0].len() == 0 {
            text::lemma_find(lines[0], ':', 0);
        } else {
            let (name, value) = text::split_once(lines[0], ':')->0;
            if !upstream::is_hop_by_hop(text::trim(name)) {
                let first = (text::trim(name), text::trim(value));
                lemma_parsed_header(lines[0]);
                assert forall|i: int| 0 <= i < all.len() implies is_header(
                    (#[trigger] all[i]).0,
                    all[i].1,
                ) by {
                    if i > 0 {
                        assert(all[i] == more[i - 1]);
                    }
                }
                assert(header_lines(all)[0] == header_line(first.0, first.1));
                assert(header_lines(all).skip(1) =~= header_lines(more));
                reveal_strlit("\r\n");
                assert("\r\n"@ =~= crlf());
                assert(first.0 + ": "@ + first.1 + "\r\n"@ + ended(header_lines(more))
                    =~= header_line(first.0, first.1) + crlf() + ended(header_lines(more)));
            }
        }
    } else {
        assert(header_lines(all).len() == 0);
    }
}

/// The length that is announced among headers that are written, where more headers
/// follow that announce none.
proof fn lemma_length_among_kept(lines: Seq<Seq<char>>, more: Seq<Seq<char>>)
    requires
        forall|i: int| 0 <= i < lines.len() ==> one_line(#[trigger] lines[i]),
        upstream::passed_to_client(lines) is Some,
        upstream::length_among(more) is None,
    ensures
        upstream::length_among(header_lines(kept(lines)) + more) == upstream::length_among(lines),
    decreases lines.len(),
{
    if lines.len() == 0 {
        assert(header_lines(kept(lines)) + more =~= more);
    } else {
        let rest = lines.skip(1);
        assert forall|i: int| 0 <= i < rest.len() implies one_line(#[trigger] rest[i]) by {
            assert(rest[i] == lines[i + 1]);
        }
        lemma_length_among_kept(rest, more);
        if lines[0].len() == 0 {
            text::lemma_find(lines[0], ':', 0);
        } else {
            let (name, value) = text::split_once(lines[0], ':')->0;
            if upstream::is_hop_by_hop(text::trim(name)) {
                lemma_hop_by_hop_announces_nothing(text::trim(name));
            } else {
                let first = (text::trim(name), text::trim(value));
                lemma_parsed_header(lines[0]);
                lemma_header_line(first.0, first.1);
                let all = header_lines(kept(lines)) + more;
                assert(all[0] == header_line(first.0, first.1));
                assert(all.skip(1) =~= header_lines(kept(rest)) + more);
            }
        }
    }
}

/// A header about one connection only does not announce a length.
proof fn lemma_hop_by_hop_announces_nothing(name: Seq<char>)
    requires
        upstream::is_hop_by_hop(name),
    ensures
        !text::same_ignoring_case(name, "content-length"@),
{
    reveal_strlit("connection");
    reveal_strlit("keep-alive");
    reveal_strlit("proxy-connection");
    reveal_strlit("content-length");
}

/// A rewritten head reads back, whatever body follows it: its first line is the one that
/// came, its headers are those that came but for the ones about one connection, with
/// those about the connection to the client after them, and it announces the length that
/// was announced.
pub proof fn law_rewritten_head_reads_back(
    head: Seq<u8>,
    runtime: RuntimeConfig,
    keep_alive: bool,
    body: Seq<u8>,
)
    requires
        upstream::rewritten(head, runtime, keep_alive) is Ok,
    ensures
        ({
            let came = text::split_crlf(decode_utf8(head));
            let message = encode_utf8(upstream::rewritten(head, runtime, keep_alive)->Ok_0) + body;
            let end = bytes::head_end(message);
            let lines = text::split_crlf(decode_utf8(message.take(end->0 as int)));
            &&& end is Some
            &&& lines[0] == came[0]
            &&& request::headers_in(lines.skip(1)) == Some(
                kept(came.skip(1)) + connection_pairs(keep_alive, runtime),
            )
            &&& upstream::announced_length(message.take(end->0 as int))
                == upstream::announced_length(head)
            &&& message.skip(end->0 as int + 4) == body
        }),
{
    let came = text::split_crlf(decode_utf8(head));
    let rest = came.skip(1);
    let pairs = connection_pairs(keep_alive, runtime);
    let headers = kept(rest) + pairs;
    lemma_rewritten_lines(head, runtime, keep_alive);
    law_message_reads_back(came[0], headers, body);
    let kept_lines = header_lines(kept(rest));
    let pair_lines = header_lines(pairs);
    assert(header_lines(headers) =~= kept_lines + pair_lines);
    lemma_parts_are_lines(decode_utf8(head));
    assert forall|i: int| 0 <= i < rest.len() implies one_line(#[trigger] rest[i]) by {
        assert(rest[i] == came[i + 1]);
    }
    lemma_pairs_announce_nothing(keep_alive, runtime);
    lemma_length_among_kept(rest, pair_lines);
    let lines = seq![came[0]] + header_lines(headers);
    assert(lines.skip(1) =~= kept_lines + pair_lines);
}

/// A rewritten head is its first line, the headers that are passed on, and those about
/// the connection to the client.
proof fn lemma_rewritten_lines(head: Seq<u8>, runtime: RuntimeConfig, keep_alive: bool)
    requires
        upstream::rewritten(head, runtime, keep_alive) is Ok,
    ensures
        ({
            let came = text::split_crlf(decode_utf8(head));
            let headers = kept(came.skip(1)) + connection_pairs(keep_alive, runtime);
            &&& came.len() > 0
            &&& one_line(came[0])
            &&& are_headers(kept(came.skip(1)))
            &&& are_headers(headers)
            &&& upstream::rewritten(head, runtime, keep_alive)->Ok_0 == ended(
                seq![came[0]] + header_lines(headers),
            ) + crlf()
        }),
{
    let came = text::split_crlf(decode_utf8(head));
    let rest = came.skip(1);
    let pairs = connection_pairs(keep_alive, runtime);
    lemma_parts_are_lines(decode_utf8(head));
    request::lemma_split_crlf_some(decode_utf8(head));
    assert forall|i: int| 0 <= i < rest.len() implies one_line(#[trigger] rest[i]) by {
        assert(rest[i] == came[i + 1]);
    }
    lemma_kept(rest);
    lemma_connection_pairs(keep_alive, runtime);
    let headers = kept(rest) + pairs;
    assert forall|i: int| 0 <= i < headers.len() implies is_header(
        (#[trigger] headers[i]).0,
        headers[i].1,
    ) by {
        if i < kept(rest).len() {
            assert(headers[i] == kept(rest)[i]);
        } else {
            assert(headers[i] == pairs[i - kept(rest).len()]);
        }
    }
    assert(one_line(came[0]));
    let kept_lines = header_lines(kept(rest));
    let pair_lines = header_lines(pairs);
    assert(header_lines(headers) =~= kept_lines + pair_lines);
    lemma_ended_concat(kept_lines, pair_lines);
    lemma_ended_concat(seq![came[0]], header_lines(headers));
    reveal_with_fuel(ended, 2);
    assert(seq![came[0]].skip(1).len() == 0);
    assert(ended(seq![came[0]]) =~= came[0] + crlf());
    reveal_strlit("\r\n");
    assert("\r\n"@ =~= crlf());
    assert(upstream::rewritten(head, runtime, keep_alive)->Ok_0 =~= ended(
        seq![came[0]] + header_lines(headers),
    ) + crlf());
}

/// The headers about the connection announce no length.
proof fn lemma_pairs_announce_nothing(keep_alive: bool, runtime: RuntimeConfig)
    ensures
        upstream::length_among(header_lines(connection_pairs(keep_alive, runtime))) is None,
{
    let pairs = connection_pairs(keep_alive, runtime);
    let lines = header_lines(pairs);
    lemma_connection_pairs(keep_alive, runtime);
    assert(is_header(pairs[0].0, pairs[0].1));
    assert(is_header(pairs[1].0, pairs[1].1));
    lemma_header_line(pairs[0].0, pairs[0].1);
    lemma_header_line(pairs[1].0, pairs[1].1);
    reveal_strlit("Connection");
    reveal_strlit("Keep-Alive");
    reveal_strlit("content-length");
    assert(lines[0] == header_line(pairs[0].0, pairs[0].1));
    assert(lines.skip(1)[0] == header_line(pairs[1].0, pairs[1].1));
    assert(lines.skip(1).skip(1).len() == 0);
    reveal_with_fuel(upstream::length_among, 3);
}

/// A client gets none of the headers about the connection to an upstream server.
pub proof fn law_no_upstream_connection_headers(lines: Seq<Seq<char>>)
    ensures
        forall|k: int|
            0 <= k < kept(lines).len() ==> !upstream::is_hop_by_hop((#[trigger] kept(lines)[k]).0),
    decreases lines.len(),
{
    if lines.len() > 0 {
        let rest = lines.skip(1);
        law_no_upstream_connection_headers(rest);
        assert forall|k: int| 0 <= k < kept(lines).len() implies !upstream::is_hop_by_hop(
            (#[trigger] kept(lines)[k]).0,
        ) by {
            if kept(lines).len() > kept(rest).len() {
                if k > 0 {
                    assert(kept(lines)[k] == kept(rest)[k - 1]);
                }
            } else {
                assert(kept(lines) == kept(rest));
            }
        }
    }
}

/// A client is told once whether the connection stays open and once for how long, after
/// all other headers.
pub proof fn law_connection_headers_come_once(
    lines: Seq<Seq<char>>,
    keep_alive: bool,
    runtime: RuntimeConfig,
    k: int,
)
    requires
        0 <= k < (kept(lines) + connection_pairs(keep_alive, runtime)).len(),
    ensures
        ({
            let headers = kept(lines) + connection_pairs(keep_alive, runtime);
            let name = headers[k].0;
            &&& text::same_ignoring_case(name, "connection"@) <==> k == headers.len() - 2
            &&& text::same_ignoring_case(name, "keep-alive"@) <==> k == headers.len() - 1
            &&& !text::same_ignoring_case(name, "proxy-connection"@)
        }),
{
    law_no_upstream_connection_headers(lines);
    let pairs = connection_pairs(keep_alive, runtime);
    let n = kept(lines).len() as int;
    let headers = kept(lines) + pairs;
    reveal_strlit("Connection");
    reveal_strlit("Keep-Alive");
    reveal_strlit("connection");
    reveal_strlit("keep-alive");
    reveal_strlit("proxy-connection");
    if k < n {
        assert(headers[k] == kept(lines)[k]);
    } else {
        assert(headers[k] == pairs[k - n]);
        assert("Connection"@[0] == 'C' && "keep-alive"@[0] == 'k');
        assert("Keep-Alive"@[0] == 'K' && "connection"@[0] == 'c');
        assert(text::lower('C') != text::lower('k'));
        assert(text::lower('K') != text::lower('c'));
    }
}

/// Of headers that are written, those about one connection are not passed on and all
/// others are.
proof fn lemma_kept_of_written(
    passed: Seq<(Seq<char>, Seq<char>)>,
    dropped: Seq<(Seq<char>, Seq<char>)>,
)
    requires
        are_headers(passed),
        are_headers(dropped),
        forall|i: int|
            0 <= i < passed.len() ==> !upstream::is_hop_by_hop((#[trigger] passed[i]).0),
        forall|i: int|
            0 <= i < dropped.len() ==> upstream::is_hop_by_hop((#[trigger] dropped[i]).0),
    ensures
        kept(header_lines(passed) + header_lines(dropped)) == passed,
        upstream::passed_to_client(header_lines(passed) + header_lines(dropped)) is Some,
    decreases passed.len() + dropped.len(),
{
    let lines = header_lines(passed) + header_lines(dropped);
    if passed.len() > 0 {
        let rest = passed.skip(1);
        let (name, value) = passed[0];
        assert(is_header(passed[0].0, passed[0].1));
        assert forall|i: int| 0 <= i < rest.len() implies is_header(
            (#[trigger] rest[i]).0,
            rest[i].1,
        ) && !upstream::is_hop_by_hop(rest[i].0) by {
            assert(rest[i] == passed[i + 1]);
        }
        lemma_kept_of_written(rest, dropped);
        lemma_header_line(name, value);
        assert(lines[0] == header_line(name, value));
        assert(lines.skip(1) =~= header_lines(rest) + header_lines(dropped));
        assert(seq![(name, value)] + rest =~= passed);
    } else if dropped.len() > 0 {
        let rest = dropped.skip(1);
        let (name, value) = dropped[0];
        assert(is_header(dropped[0].0, dropped[0].1));
        assert forall|i: int| 0 <= i < rest.len() implies is_header(
            (#[trigger] rest[i]).0,
            rest[i].1,
        ) && upstream::is_hop_by_hop(rest[i].0) by {
            assert(rest[i] == dropped[i + 1]);
        }
        lemma_kept_of_written(passed, rest);
        lemma_header_line(name, value);
        assert(lines[0] == header_line(name, value));
        assert(lines.skip(1) =~= header_lines(passed) + header_lines(rest));
    } else {
        assert(lines.len() == 0);
        assert(passed =~= kept(lines));
    }
}

/// A rewritten head is rewritten to itself, and ends in an empty line.
pub proof fn law_rewritten_head_stays(head: Seq<u8>, runtime: RuntimeConfig, keep_alive: bool)
    requires
        upstream::rewritten(head, runtime, keep_alive) is Ok,
    ensures
        ({
            let written = upstream::rewritten(head, runtime, keep_alive)->Ok_0;
            let out = encode_utf8(written);
            &&& out.len() >= 4
            &&& written.len() >= 4 && written.skip(written.len() - 4) == crlf() + crlf()
            &&& upstream::rewritten(out.take(out.len() - 4), runtime, keep_alive)
                == upstream::rewritten(head, runtime, keep_alive)
        }),
{
    let came = text::split_crlf(decode_utf8(head));
    let rest = came.skip(1);
    let own = kept(rest);
    let pairs = connection_pairs(keep_alive, runtime);
    let headers = own + pairs;
    let written = upstream::rewritten(head, runtime, keep_alive)->Ok_0;
    lemma_rewritten_lines(head, runtime, keep_alive);
    let lines = seq![came[0]] + header_lines(headers);
    lemma_header_lines(came[0], headers);
    law_head_ends(lines, Seq::empty());
    let out = encode_utf8(written);
    assert(out + Seq::<u8>::empty() =~= out);
    let start = out.take(out.len() - 4);
    assert(text::split_crlf(decode_utf8(start)) == lines);
    law_no_upstream_connection_headers(rest);
    lemma_connection_pairs(keep_alive, runtime);
    assert forall|i: int| 0 <= i < pairs.len() implies upstream::is_hop_by_hop(
        (#[trigger] pairs[i]).0,
    ) by {
        law_connection_headers_come_once(rest, keep_alive, runtime, own.len() + i);
        assert(headers[own.len() + i] == pairs[i]);
    }
    assert(header_lines(headers) =~= header_lines(own) + header_lines(pairs));
    lemma_kept_of_written(own, pairs);
    assert(lines.skip(1) =~= header_lines(headers));
    assert forall|i: int| 0 <= i < lines.skip(1).len() implies one_line(
        #[trigger] lines.skip(1)[i],
    ) by {
        assert(lines.skip(1)[i] == lines[i + 1]);
    }
    lemma_kept(lines.skip(1));
    lemma_parts_are_lines(decode_utf8(head));
    assert forall|i: int| 0 <= i < rest.len() implies one_line(#[trigger] rest[i]) by {
        assert(rest[i] == came[i + 1]);
    }
    lemma_kept(rest);
    lemma_ended(lines);
    assert(written =~= joined(lines) + (crlf() + crlf()));
    assert(written.skip(written.len() - 4) =~= crlf() + crlf());
}

/// The lines without those of headers about one connection.
pub open spec fn without_hop_by_hop(lines: Seq<Seq<char>>) -> Seq<Seq<char>>
    decreases lines.len(),
{
    if lines.len() == 0 {
        Seq::empty()
    } else {
        match text::split_once(lines[0], ':') {
            Some((name, _)) if upstream::is_hop_by_hop(text::trim(name)) => without_hop_by_hop(
                lines.skip(1),
            ),
            _ => seq![lines[0]] + without_hop_by_hop(lines.skip(1)),
        }
    }
}

proof fn lemma_without_hop_by_hop(lines: Seq<Seq<char>>)
    requires
        forall|i: int| 0 <= i < lines.len() ==> one_line(#[trigger] lines[i]),
    ensures
        upstream::passed_to_client(without_hop_by_hop(lines)) is Some
            <==> upstream::passed_to_client(lines) is Some,
        upstream::passed_to_client(lines) is Some ==> upstream::passed_to_client(
            without_hop_by_hop(lines),
        ) == upstream::passed_to_client(lines),
        forall|i: int|
            0 <= i < without_hop_by_hop(lines).len() ==> one_line(
                #[trigger] without_hop_by_hop(lines)[i],
            ),
    decreases lines.len(),
{
    if lines.len() > 0 {
        let rest = lines.skip(1);
        assert forall|i: int| 0 <= i < rest.len() implies one_line(#[trigger] rest[i]) by {
            assert(rest[i] == lines[i + 1]);
        }
        lemma_without_hop_by_hop(rest);
        let less = without_hop_by_hop(lines);
        let more = without_hop_by_hop(rest);
        text::lemma_find(lines[0], ':', 0);
        let dropped = text::split_once(lines[0], ':') matches Some((name, _))
            && upstream::is_hop_by_hop(text::trim(name));
        if !dropped {
            assert(less == seq![lines[0]] + more);
            assert(less[0] == lines[0]);
            assert(less.skip(1) =~= more);
            assert forall|i: int| 0 <= i < less.len() implies one_line(#[trigger] less[i]) by {
                if i > 0 {
                    assert(less[i] == more[i - 1]);
                }
            }
        }
    }
}

/// What an upstream server says of its own connection makes no difference: a head without
/// those lines is rewritten to the same.
pub proof fn law_dropped_lines_do_not_matter(
    head: Seq<u8>,
    runtime: RuntimeConfig,
    keep_alive: bool,
)
    requires
        valid_utf8(head),
    ensures
        ({
            let came = text::split_crlf(decode_utf8(head));
            let less = encode_utf8(joined(seq![came[0]] + without_hop_by_hop(came.skip(1))));
            upstream::rewritten(less, runtime, keep_alive) == upstream::rewritten(
                head,
                runtime,
                keep_alive,
            )
        }),
{
    let came = text::split_crlf(decode_utf8(head));
    let rest = came.skip(1);
    lemma_parts_are_lines(decode_utf8(head));
    request::lemma_split_crlf_some(decode_utf8(head));
    assert forall|i: int| 0 <= i < rest.len() implies one_line(#[trigger] rest[i]) by {
        assert(rest[i] == came[i + 1]);
    }
    lemma_without_hop_by_hop(rest);
    let left = without_hop_by_hop(rest);
    let lines = seq![came[0]] + left;
    assert forall|i: int| 0 <= i < lines.len() implies one_line(#[trigger] lines[i]) by {
        if i > 0 {
            assert(lines[i] == left[i - 1]);
        } else {
            assert(one_line(came[0]));
        }
    }
    lemma_split_joined(lines);
    encode_utf8_valid_utf8(joined(lines));
    encode_utf8_decode_utf8(joined(lines));
    assert(lines.skip(1) =~= left);
}

/// Whether `s` is a word: not empty and without white space.
pub open spec fn is_word(s: Seq<char>) -> bool {
    s.len() > 0 && forall|i: int| 0 <= i < s.len() ==> !text::is_space(#[trigger] s[i])
}

/// The words of a word, and of a word with a blank and more after it.
proof fn lemma_first_word(word: Seq<char>, more: Seq<char>)
    requires
        is_word(word),
    ensures
        text::words(word) == seq![word],
        text::words(word + " "@ + more) == seq![word] + text::words(more),
{
    reveal_strlit(" ");
    let n = word.len() as int;
    text::lemma_find_space(word, 0);
    assert(text::find_space(word, 0) == n);
    assert(word.take(n) =~= word);
    assert(word.skip(n) =~= Seq::<char>::empty());
    let s = word + " "@ + more;
    text::lemma_find_space(s, 0);
    assert(s[n] == ' ');
    let k = text::find_space(s, 0);
    if k < n {
        assert(s[k] == word[k]);
    }
    assert(k == n);
    assert(s[0] == word[0]);
    assert(s.take(n) =~= word);
    let rest = s.skip(n);
    assert(rest[0] == ' ');
    assert(rest.skip(1) =~= more);
    reveal_with_fuel(text::words, 3);
}

/// The words of a text are words.
proof fn lemma_words(s: Seq<char>)
    ensures
        forall|i: int| 0 <= i < text::words(s).len() ==> is_word(#[trigger] text::words(s)[i]),
    decreases s.len(),
{
    if s.len() == 0 {
        assert(text::words(s).len() == 0);
    } else {
        if text::is_space(s[0]) {
            lemma_words(s.skip(1));
            assert(text::words(s) == text::words(s.skip(1)));
        } else {
            text::lemma_find_space(s, 0);
            let k = text::find_space(s, 0);
            lemma_words(s.skip(k));
            let all = text::words(s);
            let rest = text::words(s.skip(k));
            assert(k > 0);
            assert(all == seq![s.take(k)] + rest);
            assert(is_word(s.take(k)));
            assert forall|i: int| 0 <= i < all.len() implies is_word(#[trigger] all[i]) by {
                if i > 0 {
                    assert(all[i] == rest[i - 1]);
                }
            }
        }
    }
}

/// Whether a request can be written and read back.
pub open spec fn is_request(request: RequestView) -> bool {
    &&& is_word(request.method)
    &&& is_word(request.target)
    &&& is_word(request.version)
    &&& are_headers(request.headers)
    &&& request.body.len() == request::body_length(request.headers)
}

/// The headers that lines spell can be written and read back.
proof fn lemma_headers_in(lines: Seq<Seq<char>>)
    requires
        forall|i: int| 0 <= i < lines.len() ==> one_line(#[trigger] lines[i]),
    ensures
        request::headers_in(lines) matches Some(headers) ==> are_headers(headers),
    decreases lines.len(),
{
    if lines.len() > 0 {
        let rest = lines.skip(1);
        assert forall|i: int| 0 <= i < rest.len() implies one_line(#[trigger] rest[i]) by {
            assert(rest[i] == lines[i + 1]);
        }
        lemma_headers_in(rest);
        if lines[0].len() > 0 {
            if let Some(headers) = request::headers_in(lines) {
                let more = request::headers_in(rest)->0;
                lemma_parsed_header(lines[0]);
                assert forall|i: int| 0 <= i < headers.len() implies is_header(
                    (#[trigger] headers[i]).0,
                    headers[i].1,
                ) by {
                    if i > 0 {
                        assert(headers[i] == more[i - 1]);
                    }
                }
            }
        }
    }
}

/// A request that was read can be written and read back.
pub proof fn law_read_request_is_a_request(buffer: Seq<u8>)
    ensures
        request::request_in(buffer) matches Ok(Some((found, _))) ==> is_request(found),
{
    if let Ok(Some((found, _))) = request::request_in(buffer) {
        request::law_request_fits(buffer);
        let head = decode_utf8(buffer.take(bytes::head_end(buffer)->0 as int));
        let lines = text::split_crlf(head);
        let rest = lines.skip(1);
        lemma_parts_are_lines(head);
        request::lemma_split_crlf_some(head);
        assert forall|i: int| 0 <= i < rest.len() implies one_line(#[trigger] rest[i]) by {
            assert(rest[i] == lines[i + 1]);
        }
        lemma_headers_in(rest);
        lemma_words(lines[0]);
        let words = text::words(lines[0]);
        assert(is_word(words[0]) && is_word(words[1]));
        if words.len() > 2 {
            assert(is_word(words[2]));
        } else {
            reveal_strlit("HTTP/1.1");
        }
    }
}

/// The headers of a request that are passed on to an upstream server.
pub open spec fn passed(headers: Seq<(Seq<char>, Seq<char>)>) -> Seq<(Seq<char>, Seq<char>)>
    decreases headers.len(),
{
    if headers.len() == 0 {
        Seq::empty()
    } else if upstream::stays_here(headers.last().0) {
        passed(headers.drop_last())
    } else {
        passed(headers.drop_last()).push(headers.last())
    }
}

/// What is passed to an upstream server are these headers, a line each.
proof fn lemma_passed(headers: Seq<(Seq<char>, Seq<char>)>)
    requires
        are_headers(headers),
    ensures
        are_headers(passed(headers)),
        upstream::passed_to_upstream(headers) == ended(header_lines(passed(headers))),
    decreases headers.len(),
{
    if headers.len() > 0 {
        let rest = headers.drop_last();
        let last = headers.last();
        assert(headers[headers.len() - 1] == last);
        assert(is_header(last.0, last.1));
        assert forall|i: int| 0 <= i < rest.len() implies is_header(
            (#[trigger] rest[i]).0,
            rest[i].1,
        ) by {
            assert(rest[i] == headers[i]);
        }
        lemma_passed(rest);
        if !upstream::stays_here(last.0) {
            let lines = header_lines(passed(rest));
            let line = header_line(last.0, last.1);
            assert(header_lines(passed(headers)) =~= lines + seq![line]);
            lemma_ended_concat(lines, seq![line]);
            reveal_with_fuel(ended, 2);
            assert(seq![line].skip(1).len() == 0);
            reveal_strlit("\r\n");
            assert("\r\n"@ =~= crlf());
            assert(upstream::passed_to_upstream(headers) =~= ended(lines) + ended(seq![line]));
        }
    } else {
        assert(header_lines(passed(headers)).len() == 0);
    }
}

/// The first header of a name among headers with one more at the end.
proof fn lemma_header_at_push(
    headers: Seq<(Seq<char>, Seq<char>)>,
    last: (Seq<char>, Seq<char>),
    name: Seq<char>,
    from: int,
)
    requires
        0 <= from <= headers.len(),
    ensures
        from <= request::header_at(headers, name, from) <= headers.len(),
        request::header_at(headers.push(last), name, from) == (if request::header_at(
            headers,
            name,
            from,
        ) < headers.len() {
            request::header_at(headers, name, from)
        } else if text::same_ignoring_case(last.0, name) {
            headers.len() as int
        } else {
            headers.len() as int + 1
        }),
    decreases headers.len() - from,
{
    let more = headers.push(last);
    if from < headers.len() {
        assert(more[from] == headers[from]);
        if !text::same_ignoring_case(headers[from].0, name) {
            lemma_header_at_push(headers, last, name, from + 1);
        }
    } else {
        assert(more[from] == last);
        reveal_with_fuel(request::header_at, 2);
    }
}

/// A header among headers in two parts is in the first, or else in the second.
proof fn lemma_header_concat(
    a: Seq<(Seq<char>, Seq<char>)>,
    b: Seq<(Seq<char>, Seq<char>)>,
    name: Seq<char>,
)
    ensures
        request::header(a + b, name) == (match request::header(a, name) {
            Some(value) => Some(value),
            None => request::header(b, name),
        }),
    decreases b.len(),
{
    if b.len() == 0 {
        assert(a + b =~= a);
        assert(request::header(b, name) is None);
    } else {
        let rest = b.drop_last();
        let last = b.last();
        lemma_header_concat(a, rest, name);
        lemma_header_at_push(rest, last, name, 0);
        lemma_header_at_push(a + rest, last, name, 0);
        assert(rest.push(last) =~= b);
        assert((a + rest).push(last) =~= a + b);
    }
}

/// Passing headers on keeps the length that they announce.
proof fn lemma_passed_length(headers: Seq<(Seq<char>, Seq<char>)>)
    ensures
        request::header(passed(headers), "content-length"@) == request::header(
            headers,
            "content-length"@,
        ),
    decreases headers.len(),
{
    let name = "content-length"@;
    if headers.len() > 0 {
        let rest = headers.drop_last();
        let last = headers.last();
        lemma_passed_length(rest);
        lemma_header_at_push(rest, last, name, 0);
        lemma_header_at_push(passed(rest), last, name, 0);
        assert(rest.push(last) =~= headers);
        reveal_strlit("content-length");
        reveal_strlit("host");
        reveal_strlit("connection");
        reveal_strlit("proxy-connection");
    }
}

/// The headers of a request as an upstream server gets it.
pub open spec fn forwarded_headers(request: RequestView, rule: rule::ProxyRuleView) -> Seq<
    (Seq<char>, Seq<char>),
> {
    leading_headers(request, rule) + passed(request.headers) + seq![("Connection"@, "close"@)]
}

/// The value of a header can be written and read back.
proof fn lemma_header_value(headers: Seq<(Seq<char>, Seq<char>)>, name: Seq<char>)
    requires
        are_headers(headers),
    ensures
        request::header(headers, name) matches Some(value) ==> one_line(value) && text::trim(value)
            == value,
{
    let k = request::header_at(headers, name, 0);
    if 0 <= k < headers.len() {
        assert(is_header(headers[k].0, headers[k].1));
    }
}

/// The headers that a forwarded request starts with.
pub open spec fn leading_headers(request: RequestView, rule: rule::ProxyRuleView) -> Seq<
    (Seq<char>, Seq<char>),
> {
    seq![
        ("Host"@, rule.upstream.authority()),
        ("X-Forwarded-Host"@, upstream::client_host(request)),
        ("X-Forwarded-Proto"@, request::client_protocol(request)),
    ]
}

/// The headers that a forwarded request starts with can be written and read back.
proof fn lemma_leading_headers(request: RequestView, rule: rule::ProxyRuleView)
    requires
        is_request(request),
        is_header("Host"@, rule.upstream.authority()),
    ensures
        are_headers(leading_headers(request, rule)),
{
    let host = upstream::client_host(request);
    let proto = request::client_protocol(request);
    lemma_header_value(request.headers, "host"@);
    lemma_header_value(request.headers, "x-forwarded-proto"@);
    reveal_strlit("X-Forwarded-Host");
    reveal_strlit("X-Forwarded-Proto");
    reveal_strlit("http");
    reveal_strlit("");
    assert(is_header("X-Forwarded-Host"@, host));
    assert(is_header("X-Forwarded-Proto"@, proto));
}

/// The header that a forwarded request ends with.
proof fn lemma_closing_header()
    ensures
        is_header("Connection"@, "close"@),
        "Connection: close\r\n\r\n"@ == ended(header_lines(seq![("Connection"@, "close"@)]))
            + crlf(),
{
    reveal_strlit("Connection");
    reveal_strlit("close");
    reveal_strlit(": ");
    reveal_strlit("Connection: close\r\n\r\n");
    let lines = header_lines(seq![("Connection"@, "close"@)]);
    assert(lines[0] == header_line("Connection"@, "close"@));
    assert(lines.skip(1).len() == 0);
    reveal_with_fuel(ended, 2);
    assert(ended(lines) =~= header_line("Connection"@, "close"@) + crlf());
    assert("Connection: close\r\n\r\n"@ =~= header_line("Connection"@, "close"@) + crlf() + crlf());
}

/// What a forwarded request starts with, line by line.
proof fn lemma_leading_lines(
    first: Seq<char>,
    authority: Seq<char>,
    host: Seq<char>,
    proto: Seq<char>,
)
    ensures
        first + "\r\nHost: "@ + authority + "\r\nX-Forwarded-Host: "@ + host
            + "\r\nX-Forwarded-Proto: "@ + proto + "\r\n"@ == ended(
            seq![first] + header_lines(
                seq![
                    ("Host"@, authority),
                    ("X-Forwarded-Host"@, host),
                    ("X-Forwarded-Proto"@, proto),
                ],
            ),
        ),
{
    let lines = seq![
        first,
        header_line("Host"@, authority),
        header_line("X-Forwarded-Host"@, host),
        header_line("X-Forwarded-Proto"@, proto),
    ];
    assert(lines =~= seq![first] + header_lines(
        seq![("Host"@, authority), ("X-Forwarded-Host"@, host), ("X-Forwarded-Proto"@, proto)],
    ));
    assert("\r\nHost: "@ == crlf() + "Host"@ + ": "@) by {
        reveal_strlit("\r\nHost: ");
        reveal_strlit("Host");
        reveal_strlit(": ");
    }
    assert("\r\nX-Forwarded-Host: "@ == crlf() + "X-Forwarded-Host"@ + ": "@) by {
        reveal_strlit("\r\nX-Forwarded-Host: ");
        reveal_strlit("X-Forwarded-Host");
        reveal_strlit(": ");
    }
    assert("\r\nX-Forwarded-Proto: "@ == crlf() + "X-Forwarded-Proto"@ + ": "@) by {
        reveal_strlit("\r\nX-Forwarded-Proto: ");
        reveal_strlit("X-Forwarded-Proto");
        reveal_strlit(": ");
    }
    assert("\r\n"@ == crlf()) by {
        reveal_strlit("\r\n");
    }
    assert(ended(lines) == first + crlf() + (header_line("Host"@, authority) + crlf() + (
    header_line("X-Forwarded-Host"@, host) + crlf() + (header_line("X-Forwarded-Proto"@, proto)
        + crlf() + Seq::<char>::empty())))) by {
        reveal_with_fuel(ended, 5);
        assert(lines.skip(1) =~= seq![lines[1], lines[2], lines[3]]);
        assert(lines.skip(1).skip(1) =~= seq![lines[2], lines[3]]);
        assert(lines.skip(1).skip(1).skip(1) =~= seq![lines[3]]);
        assert(lines.skip(1).skip(1).skip(1).skip(1) =~= Seq::<Seq<char>>::empty());
    }
    assert(first + "\r\nHost: "@ + authority + "\r\nX-Forwarded-Host: "@ + host
        + "\r\nX-Forwarded-Proto: "@ + proto + "\r\n"@ =~= ended(lines));
}

/// Words with blanks between them are one line.
proof fn lemma_forwarded_line(request: RequestView, rule: rule::ProxyRuleView)
    requires
        is_word(request.method),
        is_word(request.version),
        is_word(rule::upstream_target(request.target, rule)),
    ensures
        one_line(forwarded_line(request, rule)),
{
    let first = forwarded_line(request, rule);
    let target = rule::upstream_target(request.target, rule);
    let a = request.method.len() as int;
    let b = target.len() as int;
    reveal_strlit(" ");
    assert forall|i: int| 0 <= i < first.len() implies #[trigger] first[i] != '\r' by {
        if i < a {
            assert(first[i] == request.method[i]);
        } else if a < i < a + 1 + b {
            assert(first[i] == target[i - a - 1]);
        } else if i > a + 1 + b {
            assert(first[i] == request.version[i - a - b - 2]);
        }
    }
    lemma_no_return(first);
}

/// A forwarded request is its first line and its headers.
proof fn lemma_forwarded_head(request: RequestView, rule: rule::ProxyRuleView)
    requires
        is_request(request),
        is_word(rule::upstream_target(request.target, rule)),
        is_header("Host"@, rule.upstream.authority()),
    ensures
        are_headers(forwarded_headers(request, rule)),
        upstream::forwarded_head(request, rule) == ended(
            seq![forwarded_line(request, rule)] + header_lines(forwarded_headers(request, rule)),
        ) + crlf(),
{
    let first = forwarded_line(request, rule);
    let lead = leading_headers(request, rule);
    let middle = passed(request.headers);
    let tail = seq![("Connection"@, "close"@)];
    let all = forwarded_headers(request, rule);
    lemma_leading_headers(request, rule);
    lemma_passed(request.headers);
    lemma_closing_header();
    assert forall|i: int| 0 <= i < all.len() implies is_header((#[trigger] all[i]).0, all[i].1) by {
        if i < 3 {
            assert(all[i] == lead[i]);
        } else if i < 3 + middle.len() {
            assert(all[i] == middle[i - 3]);
        } else {
            assert(all[i] == tail[0]);
        }
    }
    let lead_lines = header_lines(lead);
    let middle_lines = header_lines(middle);
    let tail_lines = header_lines(tail);
    let start = seq![first] + lead_lines;
    assert(header_lines(all) =~= lead_lines + middle_lines + tail_lines);
    assert(seq![first] + header_lines(all) =~= (start + middle_lines) + tail_lines);
    lemma_ended_concat(start + middle_lines, tail_lines);
    lemma_ended_concat(start, middle_lines);
    lemma_leading_lines(
        first,
        rule.upstream.authority(),
        upstream::client_host(request),
        request::client_protocol(request),
    );
    assert(upstream::forwarded_head(request, rule) == ended(start) + ended(middle_lines)
        + "Connection: close\r\n\r\n"@);
    assert(ended(start) + ended(middle_lines) + (ended(tail_lines) + crlf()) =~= ended(start) + ended(
        middle_lines,
    ) + ended(tail_lines) + crlf());
}

/// The first line of a request as an upstream server gets it.
pub open spec fn forwarded_line(request: RequestView, rule: rule::ProxyRuleView) -> Seq<char> {
    request.method + " "@ + rule::upstream_target(request.target, rule) + " "@ + request.version
}

/// A forwarded request reads back as one request and nothing more: with its method and
/// version, the target that the rule gives it, its body, and its headers but for those
/// about the connection to this server, which are replaced.
pub proof fn law_forwarded_request_reads_back(request: RequestView, rule: rule::ProxyRuleView)
    requires
        is_request(request),
        is_word(rule::upstream_target(request.target, rule)),
        is_header("Host"@, rule.upstream.authority()),
    ensures
        request::request_in(upstream::forwarded(request, rule)) == Ok::<
            Option<(RequestView, nat)>,
            RequestError,
        >(
            Some(
                (
                    RequestView {
                        method: request.method,
                        target: rule::upstream_target(request.target, rule),
                        version: request.version,
                        headers: forwarded_headers(request, rule),
                        body: request.body,
                    },
                    upstream::forwarded(request, rule).len(),
                ),
            ),
        ),
{
    let target = rule::upstream_target(request.target, rule);
    let first = forwarded_line(request, rule);
    let headers = forwarded_headers(request, rule);
    let message = upstream::forwarded(request, rule);
    lemma_forwarded_head(request, rule);
    lemma_forwarded_line(request, rule);
    law_message_reads_back(first, headers, request.body);
    let lines = seq![first] + header_lines(headers);
    lemma_header_lines(first, headers);
    assert(lines[0] == first);
    assert(first =~= request.method + " "@ + (target + " "@ + request.version));
    lemma_first_word(request.method, target + " "@ + request.version);
    lemma_first_word(target, request.version);
    lemma_first_word(request.version, Seq::empty());
    assert(text::words(first) =~= seq![request.method, target, request.version]);
    let name = "content-length"@;
    let lead = leading_headers(request, rule);
    let middle = passed(request.headers);
    let tail = seq![("Connection"@, "close"@)];
    reveal_strlit("content-length");
    reveal_strlit("Host");
    reveal_strlit("X-Forwarded-Host");
    reveal_strlit("X-Forwarded-Proto");
    reveal_strlit("Connection");
    reveal_with_fuel(request::header_at, 4);
    assert(request::header(lead, name) is None);
    assert(request::header(tail, name) is None);
    lemma_header_concat(lead + middle, tail, name);
    lemma_header_concat(lead, middle, name);
    lemma_passed_length(request.headers);
    assert(request::body_length(headers) == request.body.len());
    let end = bytes::head_end(message)->0 as int;
    assert(message.subrange(end + 4, message.len() as int) =~= message.skip(end + 4));
}

/// No response is empty: neither one that this library writes nor one that it passes on
/// under a rewritten head.
pub proof fn law_responses_are_not_empty(
    status: u16,
    reason: Seq<char>,
    content_type: Seq<char>,
    body: Seq<u8>,
    head: Seq<u8>,
    keep_alive: bool,
    runtime: RuntimeConfig,
)
    ensures
        response::response_bytes(status, reason, content_type, body, keep_alive, runtime).len() > 0,
        upstream::rewritten(head, runtime, keep_alive) matches Ok(text) ==> encode_utf8(text).len()
            > 0,
{
    response::lemma_head_not_empty(
        status,
        reason,
        content_type,
        body.len(),
        keep_alive,
        runtime,
    );
    if upstream::rewritten(head, runtime, keep_alive) is Ok {
        law_rewritten_head_reads_back(head, runtime, keep_alive, Seq::empty());
        let message = encode_utf8(upstream::rewritten(head, runtime, keep_alive)->Ok_0);
        assert(message + Seq::<u8>::empty() =~= message);
        bytes::lemma_head_end(message, 0);
    }
}

} // verus!
