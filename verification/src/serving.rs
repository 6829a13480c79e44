//! How clients are served: what every read, every write and every turn makes of a connection,
//! who is let in, who is answered what, and when a connection ends.
use crate::answering;
use crate::blocking;
use crate::blocking::{ReadFailure, ReadStepView, Turn};
use crate::choosing;
use crate::clients::ServerView;
use crate::connection;
use crate::connection::{
    ConnectionView, PendingBodyView, ReadActionView, ReadEvent, WriteActionView,
    WriteEventView,
};
use crate::plain;
use crate::request;
use crate::request::{Request, RequestError, RequestView};
use crate::response::{Response, ResponseBody, ResponseView};
use crate::rule;
use crate::rule::ProxyRule;
use crate::runtime::RuntimeConfig;
use crate::server;
use crate::server::{AcceptAction, AcceptEvent, EventPlan, Route};
use crate::text;
use crate::tls::TlsError;
use crate::upstream;
use crate::upstream::{FailureKind, HeadError, IoFailure, ProxyError};
use vstd::prelude::*;
use vstd::utf8::*;

verus! {

/// Whether nothing is left to write to a connection: its head is written, and its body has
/// ended or there is none.
pub open spec fn all_written(c: ConnectionView) -> bool {
    c.head_written == c.write_head.len() && match c.write_body {
        PendingBodyView::Empty => true,
        PendingBodyView::Open { chunk, written, eof } => eof && written == chunk.len(),
    }
}

/// A connection that is to be sent `bytes` and then closed.
pub open spec fn dismissed(c: ConnectionView, bytes: Seq<u8>) -> ConnectionView {
    ConnectionView {
        read_buf: c.read_buf,
        write_head: bytes,
        head_written: 0,
        write_body: PendingBodyView::Empty,
        last_active: c.last_active,
        requests_served: c.requests_served,
        close_after_write: true,
        peer_closed: c.peer_closed,
    }
}

/// The bytes that tell a client that its request is too large.
pub open spec fn too_large(runtime: RuntimeConfig) -> Seq<u8> {
    answering::short(413, "Payload Too Large"@, "Payload Too Large"@, false, runtime)
}

/// The bytes that tell a client that what it sent is no request.
pub open spec fn no_request(runtime: RuntimeConfig) -> Seq<u8> {
    answering::short(400, "Bad Request"@, "Bad Request"@, false, runtime)
}

proof fn lemma_refusals(runtime: RuntimeConfig)
    ensures
        crate::response::plain_bytes(
            413,
            "Payload Too Large"@,
            "Payload Too Large"@,
            false,
            runtime,
        ) == too_large(runtime),
        crate::response::plain_bytes(400, "Bad Request"@, "Bad Request"@, false, runtime)
            == no_request(runtime),
{
    let none = Seq::<u8>::empty();
    answering::law_response_bytes(
        413,
        "Payload Too Large"@,
        ""@,
        none,
        "Payload Too Large"@,
        false,
        runtime,
    );
    answering::law_response_bytes(400, "Bad Request"@, ""@, none, "Bad Request"@, false, runtime);
}

/// A new connection has read nothing, has nothing to write, has answered nothing and is not
/// to be closed.
pub proof fn law_new_connection(now: u64)
    ensures
        ({
            let c = ConnectionView::accepted(now);
            &&& c.read_buf.len() == 0
            &&& c.write_head.len() == 0
            &&& all_written(c)
            &&& c.last_active == now
            &&& c.requests_served == 0
            &&& !c.close_after_write
            &&& !c.peer_closed
        }),
{
}

/// What comes of bytes that were read: they are added to those at hand. Where these are more
/// than a request may have, the client is told so and the connection is closed. While a
/// response is being written they are kept for later. Otherwise the request that they start
/// with is answered and taken away, with every byte behind it kept; where they start with
/// none yet, more is read; and where they can become none, the client is told so and the
/// connection is closed.
pub proof fn law_bytes_come(c: ConnectionView, data: Seq<u8>, now: u64, runtime: RuntimeConfig)
    requires
        c.wf(runtime),
    ensures
        ({
            let (next, action) = c.after_data(data, now, runtime);
            let all = c.read_buf + data;
            let held = ConnectionView {
                read_buf: all,
                write_head: c.write_head,
                head_written: c.head_written,
                write_body: c.write_body,
                last_active: now,
                requests_served: c.requests_served,
                close_after_write: c.close_after_write,
                peer_closed: c.peer_closed,
            };
            if all.len() > runtime.max_request_size {
                next == dismissed(held, too_large(runtime)) && action == ReadActionView::Wait
            } else if !all_written(c) {
                next == held && action == ReadActionView::Read
            } else {
                match request::request_in(all) {
                    Ok(Some((found, n))) => {
                        &&& action == ReadActionView::Dispatch(found)
                        &&& next == (ConnectionView { read_buf: next.read_buf, ..held })
                        &&& n <= all.len()
                        &&& all == all.take(n as int) + next.read_buf
                    },
                    Ok(None) => next == held && action == ReadActionView::Read,
                    Err(error) => next == dismissed(held, no_request(runtime)) && action
                        == ReadActionView::Refused(error),
                }
            }
        }),
{
    lemma_refusals(runtime);
    let all = c.read_buf + data;
    request::law_request_fits(all);
    if let Ok(Some((_, n))) = request::request_in(all) {
        assert(all.take(n as int) + all.skip(n as int) =~= all);
    }
}

/// What comes of the other ends of a read: the end of what the client sends is noted, a
/// failure closes the connection, and nothing to read changes nothing.
pub proof fn law_no_bytes_come(c: ConnectionView, data: &[u8], now: u64, runtime: RuntimeConfig)
    ensures
        c.after_read(ReadEvent::Data(data), now, runtime) == c.after_data(data@, now, runtime),
        c.after_read(ReadEvent::Eof, now, runtime).0 == c.left(),
        c.after_read(ReadEvent::Eof, now, runtime).1 == ReadActionView::Wait,
        c.after_read(ReadEvent::Blocked, now, runtime) == (c, ReadActionView::Wait),
        c.after_read(ReadEvent::Failed, now, runtime) == (c, ReadActionView::Close),
        c.left().peer_closed,
        c.left() == (ConnectionView { peer_closed: c.left().peer_closed, ..c }),
{
}

/// What is written next: the rest of the head, then the rest of the piece of the body that is
/// at hand; where that is written, the next piece is read, until the body has ended.
pub proof fn law_what_is_written_next(c: ConnectionView, now: u64, runtime: RuntimeConfig)
    requires
        c.wf(runtime),
    ensures
        ({
            let (next, action) = c.after_write(WriteEventView::Ready, now, runtime);
            &&& c.pending() <==> !all_written(c)
            &&& c.head_written < c.write_head.len() ==> {
                &&& next == c && action == WriteActionView::Write
                &&& c.write_head == c.write_head.take(c.head_written as int) + c.unsent()
            }
            &&& c.head_written == c.write_head.len() ==> match c.write_body {
                PendingBodyView::Open { chunk, written, eof } => {
                    &&& written < chunk.len() ==> {
                        &&& next == c && action == WriteActionView::Write
                        &&& chunk == chunk.take(written as int) + c.unsent()
                    }
                    &&& written == chunk.len() && !eof ==> next == c && action
                        == WriteActionView::Fill
                },
                PendingBodyView::Empty => true,
            }
        }),
{
    if c.head_written < c.write_head.len() {
        assert(c.write_head.take(c.head_written as int) + c.unsent() =~= c.write_head);
    } else if let PendingBodyView::Open { chunk, written, eof } = c.write_body {
        assert(chunk.take(written as int) + chunk.skip(written as int) =~= chunk);
    }
}

/// Once a response is written, the connection is closed where it is to be or where its client
/// sends no more; otherwise the request that was read meanwhile is answered, and where there
/// is none the connection waits for one.
pub proof fn law_response_is_written(c: ConnectionView, now: u64, runtime: RuntimeConfig)
    requires
        c.wf(runtime),
        all_written(c),
    ensures
        ({
            let (next, action) = c.after_write(WriteEventView::Ready, now, runtime);
            let done = ConnectionView {
                read_buf: c.read_buf,
                write_head: Seq::empty(),
                head_written: 0,
                write_body: PendingBodyView::Empty,
                last_active: now,
                requests_served: c.requests_served,
                close_after_write: c.close_after_write,
                peer_closed: c.peer_closed,
            };
            if c.close_after_write || c.peer_closed {
                next == done && action == WriteActionView::Close
            } else if c.read_buf.len() == 0 {
                next == done && action == WriteActionView::Wait
            } else {
                match request::request_in(c.read_buf) {
                    Ok(Some((found, n))) => {
                        &&& action == WriteActionView::Dispatch(found)
                        &&& next == (ConnectionView { read_buf: next.read_buf, ..done })
                        &&& n <= c.read_buf.len()
                        &&& c.read_buf == c.read_buf.take(n as int) + next.read_buf
                    },
                    Ok(None) => next == done && action == WriteActionView::Wait,
                    Err(error) => next == dismissed(done, no_request(runtime)) && action
                        == WriteActionView::Refused(error),
                }
            }
        }),
{
    lemma_refusals(runtime);
    let all = c.read_buf;
    request::law_request_fits(all);
    if let Ok(Some((_, n))) = request::request_in(all) {
        assert(all.take(n as int) + all.skip(n as int) =~= all);
    }
}

/// What comes of a write: so many bytes fewer are left, of the head first and then of the
/// piece of the body at hand, and writing goes on from there. A head of which nothing can be
/// written closes the connection. The next piece of a body takes the place of the last; an
/// empty one ends it. What cannot be written now waits.
pub proof fn law_bytes_are_written(
    c: ConnectionView,
    n: nat,
    piece: Seq<u8>,
    now: u64,
    runtime: RuntimeConfig,
)
    requires
        c.wf(runtime),
    ensures
        ({
            let in_head = c.head_written < c.write_head.len();
            let wrote = c.after_write(WriteEventView::Wrote(n), now, runtime);
            let filled = c.after_write(WriteEventView::Filled(piece), now, runtime);
            let next = |c: ConnectionView| c.after_write(WriteEventView::Ready, now, runtime);
            &&& c.after_write(WriteEventView::Blocked, now, runtime) == (c, WriteActionView::Wait)
            &&& n == 0 && in_head ==> wrote == (c, WriteActionView::Close)
            &&& n == 0 && !in_head ==> wrote == (c, WriteActionView::Wait)
            &&& n > 0 && in_head ==> wrote == next(
                ConnectionView { head_written: c.head_written + n, last_active: now, ..c },
            )
            &&& c.write_body matches PendingBodyView::Open { chunk, written, eof } ==> {
                &&& n > 0 && !in_head ==> wrote == next(
                    ConnectionView {
                        write_body: PendingBodyView::Open { chunk, written: written + n, eof },
                        ..c
                    },
                )
                &&& filled == next(
                    ConnectionView {
                        write_body: PendingBodyView::Open {
                            chunk: piece,
                            written: 0,
                            eof: piece.len() == 0,
                        },
                        ..c
                    },
                )
            }
        }),
{
}

/// A write that fails closes the connection where the head is being written or the client is
/// gone; any other failure in a body stops the server.
pub proof fn law_failed_writes(
    c: ConnectionView,
    kind: FailureKind,
    now: u64,
    runtime: RuntimeConfig,
)
    ensures
        ({
            let (next, action) = c.after_write(WriteEventView::Failed(kind), now, runtime);
            let gone = kind == FailureKind::BrokenPipe || kind == FailureKind::ConnectionReset
                || kind == FailureKind::ConnectionAborted;
            &&& next == c
            &&& c.head_written < c.write_head.len() || gone ==> action == WriteActionView::Close
            &&& c.head_written >= c.write_head.len() && !gone ==> action == WriteActionView::Abort
        }),
{
}

/// A response is written from the first byte of its head; its body is read from its file
/// where it has one. The connection is closed after it where the response says so or the
/// connection may not stay open, which it may where the client asks for that and the answer
/// is not the last that the connection may give.
pub proof fn law_response_is_begun(
    c: ConnectionView,
    request: RequestView,
    response: ResponseView,
    keep_alive: bool,
    now: u64,
    runtime: RuntimeConfig,
)
    ensures
        c.answered(response, keep_alive, now) == (ConnectionView {
            read_buf: c.read_buf,
            write_head: response.head,
            head_written: 0,
            write_body: match response.body {
                ResponseBody::Empty => PendingBodyView::Empty,
                ResponseBody::File | ResponseBody::TempFile => PendingBodyView::Open {
                    chunk: Seq::empty(),
                    written: 0,
                    eof: false,
                },
            },
            last_active: now,
            requests_served: c.requests_served + 1,
            close_after_write: response.close || !keep_alive,
            peer_closed: c.peer_closed,
        }),
        c.keeps_open(request, runtime) <==> request::keeps_alive(request) && c.requests_served + 1
            < runtime.keep_alive_max,
        forall|served: usize|
            #[trigger] blocking::stays_open(served, request, runtime) <==> request::keeps_alive(
                request,
            ) && served + 1 < runtime.keep_alive_max,
{
}

/// A connection is idle for too long where nothing is left to write and nothing has happened
/// on it for as many seconds as it may be idle, and only there.
pub proof fn law_idle_for_too_long(c: ConnectionView, now: u64, runtime: RuntimeConfig)
    requires
        c.wf(runtime),
        runtime.keep_alive_timeout_secs > 0,
    ensures
        c.stale(now, runtime) <==> all_written(c) && now >= c.last_active
            + runtime.keep_alive_timeout_secs * 1000000000,
{
}

/// The events that are waited for: bytes to read and the client's end at all times, and room
/// to write where something is left to write.
pub proof fn law_events_waited_for(c: ConnectionView)
    ensures
        c.pending() ==> c.interest() == 0x2005u32,
        !c.pending() ==> c.interest() == 0x2001u32,
{
    assert(0x001u32 | 0x2000u32 | 0x004u32 == 0x2005u32) by (bit_vector);
    assert(0x001u32 | 0x2000u32 == 0x2001u32) by (bit_vector);
}

/// What an event asks for, bit by bit: a failed or lost connection is closed, whatever else
/// is set; otherwise each of reading, writing and noting the client's end is asked for where
/// its bit is set.
pub proof fn law_events_asked_for(events: u32)
    ensures
        events & 0x008u32 != 0 || events & 0x010u32 != 0 ==> server::planned(events)
            == EventPlan::Close,
        events & 0x008u32 == 0 && events & 0x010u32 == 0 ==> server::planned(events) == (
        EventPlan::Handle {
            read: events & 0x001u32 != 0,
            write: events & 0x004u32 != 0,
            peer_closed: events & 0x2000u32 != 0,
        }),
{
    assert(events & (0x008u32 | 0x010u32) != 0 <==> events & 0x008u32 != 0 || events & 0x010u32
        != 0) by (bit_vector);
}

/// Who is let in: a client is served while fewer connections are open than may be, and is
/// told that the server is busy otherwise. No waiting client is no failure; the end of the
/// file descriptors of the system or of the process is waited out; any other failure stops
/// the server.
pub proof fn law_who_is_let_in(
    open: nat,
    failure: IoFailure,
    runtime: RuntimeConfig,
    action: AcceptAction,
)
    ensures
        open < runtime.max_connections ==> server::accept_action(
            open,
            AcceptEvent::Accepted,
            runtime,
        ) == AcceptAction::Serve,
        open >= runtime.max_connections ==> server::accept_action(
            open,
            AcceptEvent::Accepted,
            runtime,
        ) == AcceptAction::TurnAway,
        ({
            let given = server::accept_action(open, AcceptEvent::Failed(failure), runtime);
            &&& failure.kind == FailureKind::WouldBlock ==> given == AcceptAction::Wait
            &&& failure.kind != FailureKind::WouldBlock && (failure.os_code == Some(23i32)
                || failure.os_code == Some(24i32)) ==> given == AcceptAction::Pause
            &&& failure.kind != FailureKind::WouldBlock && failure.os_code != Some(23i32)
                && failure.os_code != Some(24i32) ==> given == AcceptAction::Abort
        }),
        upstream::no_descriptor_left(failure.os_code) <==> failure.os_code == Some(23i32)
            || failure.os_code == Some(24i32),
        action == AcceptAction::TurnAway ==> action.sent() == Some(
            encode_utf8(
                "HTTP/1.1 503 Service Unavailable\r\nServer: pear\r\nContent-Length: 0\r\nConnection: close\r\n\r\n"@,
            ),
        ),
        action != AcceptAction::TurnAway ==> action.sent() is None,
{
    answering::law_short_answers(runtime);
}

/// Where a request goes: to the files where its path lies below no prefix; to the upstream
/// server of a rule where it does; and to no one where it does but comes in chunks.
pub proof fn law_where_a_request_goes(
    request: RequestView,
    proxies: Seq<ProxyRule>,
    path: Seq<char>,
    runtime: RuntimeConfig,
    route: Route,
)
    requires
        !path.contains('?') && is_asked(path, request.target),
        server::goes(request, proxies, runtime, route),
    ensures
        ({
            let covered = exists|j: int|
                0 <= j < proxies.len() && choosing::lies_below(
                    (#[trigger] proxies[j])@.prefix,
                    path,
                );
            let chunked = request::is_chunked(request.headers);
            &&& route is Files <==> !covered
            &&& route is Respond <==> covered && chunked
            &&& route is Proxy <==> covered && !chunked
            &&& route matches Route::Respond(answer) ==> answer@ == (ResponseView {
                head: answering::short(
                    501,
                    "Not Implemented"@,
                    "Chunked transfer encoding is not supported"@,
                    false,
                    runtime,
                ),
                body: ResponseBody::Empty,
                close: true,
            })
            &&& route matches Route::Proxy(found) ==> chosen(proxies, path, *found)
        }),
{
    lemma_covered(proxies, path, request.target);
    answering::law_short_answers(runtime);
    if let Route::Proxy(found) = route {
        lemma_chosen(proxies, path, request.target, *found);
    }
}

/// Whether `found` is the rule for `path`: the one with the longest prefix that the path lies
/// below.
pub open spec fn chosen(proxies: Seq<ProxyRule>, path: Seq<char>, found: ProxyRule) -> bool {
    exists|i: int|
        0 <= i < proxies.len() && #[trigger] proxies[i] == found && choosing::lies_below(
            found@.prefix,
            path,
        ) && forall|j: int|
            0 <= j < proxies.len() && choosing::lies_below((#[trigger] proxies[j])@.prefix, path)
                ==> encode_utf8(proxies[j]@.prefix).len() <= encode_utf8(found@.prefix).len()
}

/// Whether `target` asks for `path`: it is the path, with a query behind a question mark or
/// without.
pub open spec fn is_asked(path: Seq<char>, target: Seq<char>) -> bool {
    &&& path.len() <= target.len()
    &&& target.take(path.len() as int) == path
    &&& target.len() > path.len() ==> target[path.len() as int] == '?'
}

proof fn lemma_path_of(target: Seq<char>, path: Seq<char>)
    requires
        !path.contains('?'),
        is_asked(path, target),
    ensures
        text::before(target, '?') == path,
{
    let n = path.len() as int;
    plain::law_cut_in_two(path, '?', path);
    if target.len() > n {
        let query = target.skip(n + 1);
        assert(target =~= path + seq!['?'] + query);
        plain::law_cut_in_two(path, '?', query);
    } else {
        assert(target =~= path);
    }
}

proof fn lemma_covered(proxies: Seq<ProxyRule>, path: Seq<char>, target: Seq<char>)
    requires
        !path.contains('?'),
        is_asked(path, target),
    ensures
        server::some_rule_covers(rule::rule_views(proxies), target) <==> exists|j: int|
            0 <= j < proxies.len() && choosing::lies_below((#[trigger] proxies[j])@.prefix, path),
{
    let rules = rule::rule_views(proxies);
    lemma_path_of(target, path);
    assert forall|j: int| 0 <= j < rules.len() implies (#[trigger] rules[j]).covers(path)
        == choosing::lies_below(proxies[j]@.prefix, path) by {
        choosing::law_covers_what_lies_below(rules[j], path);
    }
    if server::some_rule_covers(rules, target) {
        let j = choose|j: int| 0 <= j < rules.len() && (#[trigger] rules[j]).covers(path);
        assert(choosing::lies_below(proxies[j]@.prefix, path));
    }
    if exists|j: int|
        0 <= j < proxies.len() && choosing::lies_below((#[trigger] proxies[j])@.prefix, path) {
        let j = choose|j: int|
            0 <= j < proxies.len() && choosing::lies_below((#[trigger] proxies[j])@.prefix, path);
        assert(rules[j].covers(path));
    }
}

proof fn lemma_chosen(
    proxies: Seq<ProxyRule>,
    path: Seq<char>,
    target: Seq<char>,
    found: ProxyRule,
)
    requires
        !path.contains('?'),
        is_asked(path, target),
        server::is_rule(proxies, target, found),
    ensures
        chosen(proxies, path, found),
{
    let rules = rule::rule_views(proxies);
    lemma_path_of(target, path);
    let i = choose|i: int| #[trigger] rule::is_rule_for(rules, path, i) && found == proxies[i];
    choosing::law_longest_prefix_is_chosen(rules, path, path, i);
    assert(proxies[i] == found);
    assert(rules[i] == found@);
    assert forall|j: int|
        0 <= j < proxies.len() && choosing::lies_below(
            (#[trigger] proxies[j])@.prefix,
            path,
        ) implies encode_utf8(proxies[j]@.prefix).len() <= encode_utf8(found@.prefix).len() by {
        assert(rules[j] == proxies[j]@);
    }
}

/// The answer to a request that was passed on is the one that came, and a fixed one where
/// none did.
pub proof fn law_answer_to_proxied(
    response: Response,
    error: ProxyError,
    runtime: RuntimeConfig,
)
    ensures
        server::answer_to_proxied(Ok(response), runtime) == response@,
        server::answer_to_proxied(Err(error), runtime) == (ResponseView {
            head: answering::short(502, "Bad Gateway"@, "Bad Gateway"@, false, runtime),
            body: ResponseBody::Empty,
            close: true,
        }),
{
    answering::law_short_answers(runtime);
}

/// What a client that has a thread of its own is read: the bytes at hand are added to those
/// before. None are the end: a quiet one between two requests, an early one within. Too many
/// are refused, and so are those that can become no request. A request leaves every byte
/// behind it in the reader.
pub proof fn law_bytes_come_to_a_thread(scratch: Seq<u8>, available: Seq<u8>, max: usize)
    ensures
        ({
            let step = blocking::read_step(scratch, available, max);
            let all = scratch + available;
            &&& available.len() == 0 && scratch.len() == 0 ==> step == ReadStepView::Closed
            &&& available.len() == 0 && scratch.len() > 0 ==> step == ReadStepView::Failed(
                ReadFailure::ClosedEarly,
            )
            &&& available.len() > 0 && all.len() > max ==> step == ReadStepView::Failed(
                ReadFailure::TooLarge,
            )
            &&& available.len() > 0 && all.len() <= max ==> match request::request_in(all) {
                Err(error) => step == ReadStepView::Failed(ReadFailure::Invalid(error)),
                Ok(None) => step == ReadStepView::More,
                Ok(Some((found, n))) => step matches ReadStepView::Complete { request, used }
                    && request == found && (n >= scratch.len() ==> used + scratch.len() == n),
            }
        }),
{
}

/// What a client is told of a request that could not be read, and which failures are the
/// ordinary end of a connection.
pub proof fn law_read_failures(error: RequestError, failure: IoFailure, runtime: RuntimeConfig)
    ensures
        ReadFailure::TooLarge.answer(runtime) == Some(
            ResponseView { head: too_large(runtime), body: ResponseBody::Empty, close: true },
        ),
        ReadFailure::Invalid(error).answer(runtime) == Some(
            ResponseView { head: no_request(runtime), body: ResponseBody::Empty, close: true },
        ),
        ReadFailure::ClosedEarly.answer(runtime) is None,
        ReadFailure::Io(failure).answer(runtime) is None,
        ReadFailure::ClosedEarly.is_end(),
        !ReadFailure::TooLarge.is_end(),
        !ReadFailure::Invalid(error).is_end(),
        ReadFailure::Io(failure).is_end() <==> failure.kind == FailureKind::WouldBlock
            || failure.kind == FailureKind::TimedOut || failure.kind
            == FailureKind::UnexpectedEof,
{
    lemma_refusals(runtime);
}

/// A turn of a connection that has a thread of its own: its end and every ordinary end of
/// reading close it; what else could not be read is reported, and the client is told of it;
/// and a request goes where it would go otherwise, with the connection kept open where the
/// client asks for that and the turn is not the last.
pub proof fn law_turns(
    served: usize,
    got: Request,
    error: ReadFailure,
    proxies: Seq<ProxyRule>,
    path: Seq<char>,
    runtime: RuntimeConfig,
    turn: Turn,
)
    requires
        !path.contains('?') && is_asked(path, got@.target),
    ensures
        blocking::is_turn(served, Ok(None), proxies, runtime, turn) <==> turn is Close,
        blocking::is_turn(served, Err(error), proxies, runtime, turn) ==> if error.is_end() {
            turn is Close
        } else {
            turn matches Turn::Fail { failure, response } && failure == error && (
            response is Some <==> error is TooLarge || error is Invalid) && (
            response matches Some(answer) ==> answer@.close && answer@.head
                == if error is TooLarge {
                too_large(runtime)
            } else {
                no_request(runtime)
            })
        },
        blocking::is_turn(served, Ok(Some(got)), proxies, runtime, turn) ==> {
            let covered = exists|j: int|
                0 <= j < proxies.len() && choosing::lies_below(
                    (#[trigger] proxies[j])@.prefix,
                    path,
                );
            let chunked = request::is_chunked(got@.headers);
            let stays = request::keeps_alive(got@) && served + 1 < runtime.keep_alive_max;
            &&& !covered ==> turn == (Turn::Files { request: got, keep_alive: stays })
            &&& covered && chunked ==> {
                &&& turn matches Turn::Refuse(answer)
                &&& answer@.close
                &&& answer@.head == answering::short(
                    501,
                    "Not Implemented"@,
                    "Chunked transfer encoding is not supported"@,
                    false,
                    runtime,
                )
            }
            &&& covered && !chunked ==> {
                &&& turn matches Turn::Proxy { request, rule, keep_alive }
                &&& request == got
                &&& keep_alive == stays
                &&& chosen(proxies, path, *rule)
            }
        },
{
    lemma_refusals(runtime);
    answering::law_short_answers(runtime);
    if blocking::is_turn(served, Ok(Some(got)), proxies, runtime, turn) {
        lemma_covered(proxies, path, got@.target);
        if let Turn::Proxy { request, rule, keep_alive } = turn {
            lemma_chosen(proxies, path, got@.target, *rule);
        }
    }
}

/// There is another turn where the connection is kept open and the response does not end it,
/// and only there; turns are counted one by one.
pub proof fn law_next_turn(served: usize, keep_alive: bool, close: bool)
    requires
        served < usize::MAX,
    ensures
        blocking::turns_after(served, keep_alive, close) is Some <==> keep_alive && !close,
        blocking::turns_after(served, keep_alive, close) matches Some(n) ==> n == served + 1,
{
}

/// A server starts without connections. An event on a connection does to it what it would
/// do to the connection alone; one that is to be closed is open no more; and nothing happens
/// to one that is not open.
pub proof fn law_events_reach_their_connection(
    s: ServerView,
    fd: i32,
    read: ReadEvent,
    write: WriteEventView,
    request: RequestView,
    response: ResponseView,
    keep_alive: bool,
    now: u64,
)
    ensures
        ServerView::start(s.runtime).connections.dom().is_empty(),
        ServerView::start(s.runtime).runtime == s.runtime,
        ({
            let c = s.connections[fd];
            let (after_read, read_action) = s.after_read(fd, read, now);
            let (after_write, write_action) = s.after_write(fd, write, now);
            let answered = s.answered(fd, response, keep_alive, now);
            let left = s.peer_closed(fd);
            let closed = s.without(fd);
            let open = s.connections.contains_key(fd);
            &&& after_read.runtime == s.runtime && after_write.runtime == s.runtime
                && answered.runtime == s.runtime && left.runtime == s.runtime && closed.runtime
                == s.runtime
            &&& !closed.connections.contains_key(fd)
            &&& open ==> {
                let (read_next, read_alone) = c.after_read(read, now, s.runtime);
                let (write_next, write_alone) = c.after_write(write, now, s.runtime);
                &&& read_action == Some(read_alone)
                &&& after_read.connections.contains_key(fd) <==> read_alone !is Close
                &&& read_alone !is Close ==> after_read.connections[fd] == read_next
                &&& write_action == Some(write_alone)
                &&& after_write.connections.contains_key(fd) <==> write_alone !is Close
                &&& write_alone !is Close ==> after_write.connections[fd] == write_next
                &&& answered.connections.contains_key(fd)
                &&& answered.connections[fd] == c.answered(response, keep_alive, now)
                &&& left.connections.contains_key(fd)
                &&& left.connections[fd] == c.left()
                &&& s.interest(fd) == Some(c.interest())
                &&& s.unsent(fd) == Some(c.unsent())
                &&& s.keeps_open(fd, request) == Some(c.keeps_open(request, s.runtime))
                &&& s.writes_head(fd) <==> c.head_written < c.write_head.len()
            }
            &&& !open ==> {
                &&& after_read == s && read_action is None
                &&& after_write == s && write_action is None
                &&& answered == s && left == s && closed == s
                &&& s.interest(fd) is None && s.unsent(fd) is None
                &&& s.keeps_open(fd, request) is None && !s.writes_head(fd)
            }
        }),
{
    if !s.connections.contains_key(fd) {
        assert(s.without(fd).connections =~= s.connections);
    }
}

/// Idle connections are closed, and no others: those that are not idle for too long stay
/// open, unchanged.
pub proof fn law_idle_connections_are_closed(s: ServerView, fd: i32, now: u64)
    ensures
        s.swept(now).runtime == s.runtime,
        s.swept(now).connections.contains_key(fd) <==> s.connections.contains_key(fd)
            && !s.connections[fd].stale(now, s.runtime),
        s.swept(now).connections.contains_key(fd) ==> s.swept(now).connections[fd]
            == s.connections[fd],
        s.is_stale(fd, now) <==> s.connections.contains_key(fd) && s.connections[fd].stale(
            now,
            s.runtime,
        ),
{
}

/// Every error in words.
pub proof fn law_errors_in_words(failure: IoFailure, reason: String)
    ensures
        RequestError::InvalidHeaders.text() == "invalid request headers"@,
        RequestError::MissingMethod.text() == "missing method"@,
        RequestError::MissingTarget.text() == "missing target"@,
        RequestError::InvalidHeader.text() == "invalid header"@,
        ReadFailure::ClosedEarly.text() == "connection closed mid-request"@,
        ReadFailure::TooLarge.text() == "request exceeds maximum size"@,
        forall|error: RequestError| #[trigger]
            ReadFailure::Invalid(error).text() == error.text(),
        ReadFailure::Io(failure).text() == failure.message@,
        HeadError::InvalidHeaders.text() == "invalid upstream response headers"@,
        HeadError::InvalidHeader.text() == "invalid upstream header"@,
        ProxyError::ClosedEarly.text() == "upstream closed before sending headers"@,
        forall|error: HeadError| #[trigger] ProxyError::Head(error).text() == error.text(),
        ProxyError::Io(failure).text() == failure.message@,
        TlsError::InvalidHost.text() == "invalid upstream host"@,
        TlsError::Setup(reason).text() == "TLS setup failed: "@ + reason@,
{
}

/// How much is read and tried at once.
pub proof fn law_sizes(tried: usize)
    ensures
        connection::FILE_CHUNK_SIZE == 65536,
        upstream::READ_CHUNK_SIZE == 8192,
        crate::static_files::INLINE_FILE_THRESHOLD == 16384,
        server::another_name(tried) <==> tried < 16,
{
}

} // verus!
