use pear::blocking::{
    handle_connection, next_turn, read_request_blocking, ReadFailure, ReadStep, Turn,
};
use pear::clients::Server;
use pear::config::{Config, ConfigFile};
use pear::connection::{
    Connection, FlushStep, PendingBody, ReadAction, ReadEvent, WriteAction, WriteEvent,
};
use pear::request::{Request, RequestError};
use pear::response::{Response, ResponseBody};
use pear::rule::ProxyRule;
use pear::runtime::RuntimeConfig;
use pear::server::{
    accept_ready, bad_gateway, handle_request, listen_address, may_try_another_name, plan,
    proxy_answer, startup_lines, temp_body_name, AcceptAction, AcceptEvent, EventPlan, Route,
};
use pear::upstream::{FailureKind, IoFailure, ProxyError};

const SECOND: u64 = 1_000_000_000;

fn runtime() -> RuntimeConfig {
    RuntimeConfig {
        keep_alive_timeout_secs: 5,
        keep_alive_max: 3,
        max_events: 256,
        max_connections: 2,
        max_request_size: 64,
    }
}

fn request(target: &str) -> Request {
    Request {
        method: "GET".to_string(),
        target: target.to_string(),
        version: "HTTP/1.1".to_string(),
        headers: Vec::new(),
        body: Vec::new(),
    }
}

fn failed(kind: FailureKind) -> IoFailure {
    IoFailure { kind, message: "x".to_string(), os_code: None }
}

fn read(connection: &mut Connection, bytes: &[u8]) -> ReadAction {
    connection.read_ready(ReadEvent::Data(bytes), 7, &runtime())
}

/// Writes at most `size` bytes at a time until there is something else to do, with the
/// pieces of the body from `body`.
fn write_all(
    connection: &mut Connection,
    size: usize,
    body: &mut Vec<Vec<u8>>,
    out: &mut Vec<u8>,
) -> WriteAction {
    let mut action = connection.write_ready(WriteEvent::Ready, 9, &runtime());
    loop {
        let event = match action {
            WriteAction::Write => {
                let unsent = connection.unsent().to_vec();
                let n = unsent.len().min(size);
                out.extend_from_slice(&unsent[..n]);
                WriteEvent::Wrote(n)
            }
            WriteAction::Fill => {
                WriteEvent::Filled(if body.is_empty() { Vec::new() } else { body.remove(0) })
            }
            other => return other,
        };
        action = connection.write_ready(event, 9, &runtime());
    }
}

fn answer(connection: &mut Connection, asked: &Request, response: Response) {
    let keep_alive = connection.keeps_open(asked, &runtime());
    connection.dispatch_request(response, keep_alive, 8, &runtime());
}

#[test]
fn a_request_in_pieces_is_dispatched_when_complete() {
    let mut connection = Connection::new(1);
    assert!(matches!(read(&mut connection, b"GET /a HT"), ReadAction::Read));
    assert!(matches!(read(&mut connection, b"TP/1.1\r\n\r"), ReadAction::Read));
    match read(&mut connection, b"\nGET /b") {
        ReadAction::Dispatch(found) => assert_eq!(found.target, "/a"),
        other => panic!("expected a request, got {:?}", other),
    }
    assert_eq!(connection.read_buf, b"GET /b");
    assert_eq!(connection.last_active, 7);
}

#[test]
fn a_response_is_written_in_order() {
    for size in 1..8 {
        let mut connection = Connection::new(1);
        assert!(matches!(read(&mut connection, b"GET /a HTTP/1.1\r\n\r\n"), ReadAction::Dispatch(_)));
        answer(&mut connection, &request("/a"), Response::streamed(b"head|".to_vec()));
        assert!(connection.has_pending_write());
        let mut out = Vec::new();
        let mut body = vec![b"one".to_vec(), b"two!".to_vec()];
        assert!(matches!(write_all(&mut connection, size, &mut body, &mut out), WriteAction::Wait));
        assert_eq!(out, b"head|onetwo!");
        assert!(!connection.has_pending_write());
        assert_eq!(connection.requests_served, 1);
    }
}

#[test]
fn requests_that_wait_are_answered_next() {
    let mut connection = Connection::new(1);
    let two = b"GET /a HTTP/1.1\r\n\r\nGET /b HTTP/1.1\r\n\r\n";
    assert!(matches!(read(&mut connection, two), ReadAction::Dispatch(_)));
    answer(&mut connection, &request("/a"), Response::new(b"A".to_vec()));
    let mut out = Vec::new();
    match write_all(&mut connection, 9, &mut Vec::new(), &mut out) {
        WriteAction::Dispatch(found) => assert_eq!(found.target, "/b"),
        other => panic!("expected the next request, got {:?}", other),
    }
    assert_eq!(out, b"A");
    assert!(connection.read_buf.is_empty());
}

#[test]
fn bad_bytes_that_wait_are_refused_next() {
    let mut connection = Connection::new(1);
    assert!(matches!(read(&mut connection, b"GET /a HTTP/1.1\r\n\r\nGET\r\n\r\n"), ReadAction::Dispatch(_)));
    answer(&mut connection, &request("/a"), Response::new(b"A".to_vec()));
    let mut out = Vec::new();
    match write_all(&mut connection, 9, &mut Vec::new(), &mut out) {
        WriteAction::Refused(error) => assert_eq!(error, RequestError::MissingTarget),
        other => panic!("expected a refusal, got {:?}", other),
    }
    assert!(connection.write_head.starts_with(b"HTTP/1.1 400 Bad Request\r\n"));
    assert!(connection.close_after_write);
}

#[test]
fn half_a_request_that_waits_stays() {
    let mut connection = Connection::new(1);
    assert!(matches!(read(&mut connection, b"GET /a HTTP/1.1\r\n\r\nGET /b"), ReadAction::Dispatch(_)));
    answer(&mut connection, &request("/a"), Response::new(b"A".to_vec()));
    let mut out = Vec::new();
    assert!(matches!(write_all(&mut connection, 9, &mut Vec::new(), &mut out), WriteAction::Wait));
    assert_eq!(connection.read_buf, b"GET /b");
}

#[test]
fn bad_requests_are_refused() {
    let mut connection = Connection::new(1);
    match read(&mut connection, b"\r\n\r\n") {
        ReadAction::Refused(error) => assert_eq!(error, RequestError::MissingMethod),
        other => panic!("expected a refusal, got {:?}", other),
    }
    let mut out = Vec::new();
    assert!(matches!(write_all(&mut connection, 1000, &mut Vec::new(), &mut out), WriteAction::Close));
    assert!(out.starts_with(b"HTTP/1.1 400 Bad Request\r\n"));
}

#[test]
fn large_requests_are_refused() {
    let mut connection = Connection::new(1);
    assert!(matches!(read(&mut connection, &[b'a'; 64]), ReadAction::Read));
    assert!(matches!(read(&mut connection, b"a"), ReadAction::Wait));
    let mut out = Vec::new();
    assert!(matches!(write_all(&mut connection, 1000, &mut Vec::new(), &mut out), WriteAction::Close));
    assert!(out.starts_with(b"HTTP/1.1 413 Payload Too Large\r\n"));
}

#[test]
fn bytes_after_a_refusal_begin_it_anew() {
    let mut connection = Connection::new(1);
    assert!(matches!(read(&mut connection, &[b'a'; 65]), ReadAction::Wait));
    assert!(matches!(connection.write_ready(WriteEvent::Wrote(9), 2, &runtime()), WriteAction::Write));
    assert_eq!(connection.head_written, 9);
    assert!(matches!(read(&mut connection, b"a"), ReadAction::Wait));
    assert_eq!(connection.head_written, 0);
}

#[test]
fn reading_goes_on_while_writing() {
    let mut connection = Connection::new(1);
    assert!(matches!(read(&mut connection, b"GET /a HTTP/1.1\r\n\r\n"), ReadAction::Dispatch(_)));
    answer(&mut connection, &request("/a"), Response::new(b"A".to_vec()));
    assert!(matches!(read(&mut connection, b"GET /b HTTP/1.1\r\n\r\n"), ReadAction::Read));
    assert_eq!(connection.read_buf.len(), 19);
}

#[test]
fn other_ends_of_reading() {
    let mut connection = Connection::new(1);
    assert!(matches!(connection.read_ready(ReadEvent::Blocked, 2, &runtime()), ReadAction::Wait));
    assert!(matches!(connection.read_ready(ReadEvent::Failed, 2, &runtime()), ReadAction::Close));
    assert!(!connection.peer_closed);
    assert!(matches!(connection.read_ready(ReadEvent::Eof, 2, &runtime()), ReadAction::Wait));
    assert!(connection.peer_closed);
    assert_eq!(connection.last_active, 1);
}

#[test]
fn the_last_answer_closes() {
    let mut connection = Connection::new(1);
    for turn in 1..=3 {
        assert!(matches!(read(&mut connection, b"GET /a HTTP/1.1\r\n\r\n"), ReadAction::Dispatch(_)));
        let asked = request("/a");
        assert_eq!(connection.keeps_open(&asked, &runtime()), turn < 3);
        answer(&mut connection, &asked, Response::new(b"A".to_vec()));
        assert_eq!(connection.requests_served, turn);
        let mut out = Vec::new();
        let action = write_all(&mut connection, 9, &mut Vec::new(), &mut out);
        if turn < 3 {
            assert!(matches!(action, WriteAction::Wait));
        } else {
            assert!(matches!(action, WriteAction::Close));
        }
    }
}

#[test]
fn clients_and_responses_may_close() {
    let mut asked = request("/a");
    asked.headers.push(("Connection".to_string(), "close".to_string()));
    let mut connection = Connection::new(1);
    answer(&mut connection, &asked, Response::new(b"A".to_vec()));
    assert!(connection.close_after_write);
    let mut connection = Connection::new(1);
    answer(&mut connection, &request("/a"), Response::close(b"A".to_vec()));
    assert!(connection.close_after_write);
    let mut connection = Connection::new(1);
    answer(&mut connection, &request("/a"), Response::new(b"A".to_vec()));
    assert!(!connection.close_after_write);
    connection.mark_peer_closed();
    let mut out = Vec::new();
    assert!(matches!(write_all(&mut connection, 9, &mut Vec::new(), &mut out), WriteAction::Close));
}

#[test]
fn writing_that_does_not_go_on() {
    let fresh = || {
        let mut connection = Connection::new(1);
        answer(&mut connection, &request("/a"), Response::streamed(b"AB".to_vec()));
        connection
    };
    let mut connection = fresh();
    assert!(matches!(connection.write_ready(WriteEvent::Blocked, 2, &runtime()), WriteAction::Wait));
    assert!(matches!(connection.write_ready(WriteEvent::Wrote(0), 2, &runtime()), WriteAction::Close));
    let mut connection = fresh();
    let other = WriteEvent::Failed(FailureKind::Other);
    assert!(matches!(connection.write_ready(other, 2, &runtime()), WriteAction::Close));

    let in_body = || {
        let mut connection = fresh();
        assert!(matches!(connection.write_ready(WriteEvent::Wrote(2), 2, &runtime()), WriteAction::Fill));
        let piece = WriteEvent::Filled(b"body".to_vec());
        assert!(matches!(connection.write_ready(piece, 2, &runtime()), WriteAction::Write));
        connection
    };
    let mut connection = in_body();
    assert_eq!(connection.unsent(), b"body");
    assert!(matches!(connection.write_ready(WriteEvent::Wrote(0), 2, &runtime()), WriteAction::Wait));
    for kind in [
        FailureKind::BrokenPipe,
        FailureKind::ConnectionReset,
        FailureKind::ConnectionAborted,
    ] {
        let mut connection = in_body();
        let event = WriteEvent::Failed(kind);
        assert!(matches!(connection.write_ready(event, 2, &runtime()), WriteAction::Close));
    }
    let mut connection = in_body();
    let event = WriteEvent::Failed(FailureKind::Other);
    assert!(matches!(connection.write_ready(event, 2, &runtime()), WriteAction::Abort));
}

#[test]
fn bodies_in_pieces() {
    let mut body = PendingBody::from_response_body(ResponseBody::File);
    assert_eq!(body.flush_to(), FlushStep::Fill);
    assert!(body.has_pending_data());
    body.filled(b"abc".to_vec());
    assert_eq!(body.flush_to(), FlushStep::Write);
    body.wrote(2);
    assert_eq!(body.unsent(), b"c");
    body.wrote(1);
    assert_eq!(body.flush_to(), FlushStep::Fill);
    assert!(body.has_pending_data());
    body.filled(Vec::new());
    assert_eq!(body.flush_to(), FlushStep::Done);
    assert!(!body.has_pending_data());
    let none = PendingBody::from_response_body(ResponseBody::Empty);
    assert_eq!(none.flush_to(), FlushStep::Done);
    assert!(!PendingBody::empty().has_pending_data());
    let temp = PendingBody::from_response_body(ResponseBody::TempFile);
    assert!(temp.has_pending_data());
}

#[test]
fn interest_and_idleness() {
    let mut connection = Connection::new(SECOND);
    assert_eq!(connection.refresh_interest(), 0x2001);
    assert!(!connection.is_stale(0, &runtime()));
    assert!(!connection.is_stale(6 * SECOND - 1, &runtime()));
    assert!(connection.is_stale(6 * SECOND, &runtime()));
    answer(&mut connection, &request("/a"), Response::new(b"A".to_vec()));
    assert_eq!(connection.refresh_interest(), 0x2005);
    assert!(!connection.is_stale(u64::MAX, &runtime()));
}

#[test]
fn events_and_their_plans() {
    assert_eq!(plan(0x008), EventPlan::Close);
    assert_eq!(plan(0x011), EventPlan::Close);
    assert_eq!(plan(0x001), EventPlan::Handle { read: true, write: false, peer_closed: false });
    assert_eq!(plan(0x2005), EventPlan::Handle { read: true, write: true, peer_closed: true });
    assert_eq!(plan(0), EventPlan::Handle { read: false, write: false, peer_closed: false });
}

#[test]
fn who_is_let_in() {
    let after = |open: usize, event: AcceptEvent| accept_ready(open, &event, &runtime());
    assert_eq!(after(1, AcceptEvent::Accepted), AcceptAction::Serve);
    assert_eq!(after(2, AcceptEvent::Accepted), AcceptAction::TurnAway);
    assert_eq!(after(0, AcceptEvent::Failed(failed(FailureKind::WouldBlock))), AcceptAction::Wait);
    assert_eq!(after(0, AcceptEvent::Failed(failed(FailureKind::Other))), AcceptAction::Abort);
    let full = IoFailure { os_code: Some(24), ..failed(FailureKind::Other) };
    assert_eq!(after(0, AcceptEvent::Failed(full)), AcceptAction::Pause);
}

#[test]
fn routes() {
    let rules = vec![ProxyRule::new("/api", "http://h").unwrap()];
    assert!(matches!(handle_request(&request("/x"), &rules, &runtime()), Route::Files));
    match handle_request(&request("/api/x"), &rules, &runtime()) {
        Route::Proxy(found) => assert_eq!(found.prefix, "/api"),
        other => panic!("expected a rule, got {:?}", other),
    }
    let mut chunked = request("/api/x");
    chunked.headers.push(("Transfer-Encoding".to_string(), "chunked".to_string()));
    match handle_request(&chunked, &rules, &runtime()) {
        Route::Respond(response) => {
            let text = String::from_utf8(response.head).unwrap();
            assert!(text.starts_with("HTTP/1.1 501 Not Implemented\r\n"));
            assert!(text.ends_with("\r\n\r\nChunked transfer encoding is not supported"));
            assert!(response.close);
        }
        other => panic!("expected a refusal, got {:?}", other),
    }
    chunked.target = "/x".to_string();
    assert!(matches!(handle_request(&chunked, &rules, &runtime()), Route::Files));
    let gateway = bad_gateway(&runtime());
    assert!(gateway.head.starts_with(b"HTTP/1.1 502 Bad Gateway\r\n"));
    assert!(gateway.head.ends_with(b"\r\n\r\nBad Gateway"));
    assert!(gateway.close);
    let passed = proxy_answer(Ok(Response::new(b"x".to_vec())), &runtime());
    assert_eq!(passed.head, b"x");
    assert!(!passed.close);
    let failed = proxy_answer(Err(ProxyError::ClosedEarly), &runtime());
    assert_eq!(failed.head, gateway.head);
    assert!(failed.close);
}

#[test]
fn words_at_the_start() {
    let args: Vec<String> = ["--proxy", "/api=https://h/b", "-p", "99"]
        .iter()
        .map(|arg| arg.to_string())
        .collect();
    let config = Config::parse(&args, &Ok("/w".to_string()), None, &ConfigFile::Missing)
        .0
        .unwrap()
        .unwrap();
    assert_eq!(listen_address(&config), "127.0.0.1:99");
    assert_eq!(
        startup_lines(&config, "/srv", true),
        vec![
            "Serving /srv",
            "Open http://127.0.0.1:99",
            "Proxy /api -> https://h:443/b",
            "Runtime epoll + keep-alive",
            "keep_alive_timeout=5s keep_alive_max=100 max_events=256 max_connections=4096 max_request_size=1048576",
            "Press Ctrl+C to stop",
        ]
    );
    let compat = startup_lines(&config, "/srv", false);
    assert_eq!(compat[3], "Runtime compat + keep-alive");
    assert_eq!(
        compat[4],
        "keep_alive_timeout=5s keep_alive_max=100 max_connections=4096 max_request_size=1048576"
    );
    assert_eq!(temp_body_name(12, 34), "pear-body-12-34.tmp");
    assert_ne!(temp_body_name(1, 23), temp_body_name(1, 24));
    assert!(may_try_another_name(15));
    assert!(!may_try_another_name(16));
}

#[test]
fn open_connections_stay_within_the_limit() {
    let mut server = Server::new(runtime());
    let accepted = AcceptEvent::Accepted;
    assert_eq!(server.accept_ready(5, &accepted, 1), AcceptAction::Serve);
    let first = format!("{:?}", server.connections[&5]);
    assert_eq!(server.accept_ready(6, &accepted, 2), AcceptAction::Serve);
    for fd in 7..10 {
        let action = server.accept_ready(fd, &accepted, 3);
        assert_eq!(action, AcceptAction::TurnAway);
        assert_eq!(
            action.farewell().as_deref(),
            Some(&b"HTTP/1.1 503 Service Unavailable\r\nServer: pear\r\nContent-Length: 0\r\nConnection: close\r\n\r\n"[..])
        );
        assert_eq!(server.connections.len(), 2);
        assert_eq!(format!("{:?}", server.connections[&5]), first);
    }
    let none = AcceptEvent::Failed(failed(FailureKind::WouldBlock));
    assert_eq!(server.accept_ready(-1, &none, 4), AcceptAction::Wait);
    assert_eq!(AcceptAction::Serve.farewell(), None);
    server.close_connection(5);
    assert_eq!(server.accept_ready(7, &accepted, 5), AcceptAction::Serve);
    let mut open: Vec<i32> = server.connections.keys().copied().collect();
    open.sort();
    assert_eq!(open, [6, 7]);
}

#[test]
fn events_of_one_connection_leave_the_others() {
    let mut server = Server::new(runtime());
    for fd in [3, 4] {
        server.accept_ready(fd, &AcceptEvent::Accepted, 0);
    }
    let other = format!("{:?}", server.connections[&4]);
    assert_eq!(server.refresh_interest(3), Some(0x2001));
    let data = ReadEvent::Data(b"GET /a HTTP/1.1\r\n\r\n");
    let request = match server.read_ready(3, data, 1) {
        Some(ReadAction::Dispatch(request)) => request,
        other => panic!("expected a request, got {:?}", other),
    };
    assert_eq!(server.keeps_open(3, &request), Some(true));
    server.dispatch_request(3, Response::new(b"head".to_vec()), true, 2);
    assert_eq!(server.refresh_interest(3), Some(0x2005));
    assert!(server.is_writing_head(3));
    assert_eq!(server.unsent(3), Some(&b"head"[..]));
    assert!(matches!(server.write_ready(3, WriteEvent::Wrote(1), 3), Some(WriteAction::Write)));
    assert_eq!(server.unsent(3), Some(&b"ead"[..]));
    server.mark_peer_closed(3);
    assert_eq!(format!("{:?}", server.connections[&4]), other);
    assert!(matches!(server.write_ready(3, WriteEvent::Wrote(3), 3), Some(WriteAction::Close)));
    assert_eq!(server.connections.len(), 1);
    assert_eq!(format!("{:?}", server.connections[&4]), other);
    assert!(server.read_ready(3, ReadEvent::Blocked, 4).is_none());
    assert!(server.write_ready(3, WriteEvent::Ready, 4).is_none());
    assert_eq!(server.unsent(3), None);
    assert_eq!(server.keeps_open(3, &request), None);
    assert_eq!(server.refresh_interest(3), None);
    assert!(!server.is_writing_head(3));
    server.mark_peer_closed(3);
    server.dispatch_request(3, Response::new(b"head".to_vec()), true, 2);
    assert!(matches!(server.read_ready(4, ReadEvent::Failed, 4), Some(ReadAction::Close)));
    assert!(server.connections.is_empty());
}

#[test]
fn idle_connections_are_swept() {
    let mut limits = runtime();
    limits.max_connections = 8;
    let mut server = Server::new(limits);
    for fd in 0..6 {
        server.accept_ready(fd, &AcceptEvent::Accepted, fd as u64 * SECOND);
    }
    server.dispatch_request(1, Response::new(b"head".to_vec()), true, SECOND);
    let mut swept = server.sweep_idle(8 * SECOND);
    swept.sort();
    assert_eq!(swept, [0, 2, 3]);
    let mut open: Vec<i32> = server.connections.keys().copied().collect();
    open.sort();
    assert_eq!(open, [1, 4, 5]);
    assert!(server.sweep_idle(8 * SECOND).is_empty());
}

#[test]
fn blocking_reads() {
    let mut scratch = Vec::new();
    assert!(matches!(read_request_blocking(&mut scratch, b"", 64), ReadStep::Closed));
    let two = b"GET /a HTTP/1.1\r\n\r\nGET";
    match read_request_blocking(&mut scratch, two, 64) {
        ReadStep::Complete { request, used } => {
            assert_eq!(request.target, "/a");
            assert_eq!(used, 19);
        }
        other => panic!("expected a request, got {:?}", other),
    }
    let mut scratch = Vec::new();
    assert!(matches!(read_request_blocking(&mut scratch, b"GET /a", 64), ReadStep::More));
    assert_eq!(scratch, b"GET /a");
    match read_request_blocking(&mut scratch, b" HTTP/1.1\r\n\r\n", 64) {
        ReadStep::Complete { request, used } => {
            assert_eq!(request.target, "/a");
            assert_eq!(used, 13);
        }
        other => panic!("expected a request, got {:?}", other),
    }
}

/// Reads requests from `bytes`, at most `size` at a time, until they end.
fn read_all(mut bytes: &[u8], size: usize) -> Vec<Request> {
    let mut requests = Vec::new();
    let mut scratch = Vec::new();
    loop {
        let at_hand = &bytes[..size.min(bytes.len())];
        match read_request_blocking(&mut scratch, at_hand, 128) {
            ReadStep::More => bytes = &bytes[at_hand.len()..],
            ReadStep::Complete { request, used } => {
                requests.push(request);
                scratch.clear();
                bytes = &bytes[used..];
            }
            ReadStep::Closed => return requests,
            ReadStep::Failed(failure) => panic!("reading failed: {:?}", failure),
        }
    }
}

#[test]
fn requests_in_pieces_of_any_size() {
    let first: &[u8] = b"POST /a HTTP/1.1\r\nContent-Length: 5\r\n\r\nhello";
    let second: &[u8] = b"GET /b HTTP/1.1\r\nHost: h\r\n\r\n";
    let both = [first, second].concat();
    for size in 1..=both.len() {
        let requests = read_all(&both, size);
        assert_eq!(requests.len(), 2);
        assert_eq!(requests[0].target, "/a");
        assert_eq!(requests[0].body, b"hello");
        assert_eq!(requests[1].target, "/b");
        assert_eq!(requests[1].headers, [("Host".to_string(), "h".to_string())]);
    }
}

#[test]
fn blocking_reads_that_fail() {
    let mut scratch = b"GET".to_vec();
    let early = read_request_blocking(&mut scratch, b"", 64);
    assert!(matches!(early, ReadStep::Failed(ReadFailure::ClosedEarly)));
    let mut scratch = vec![b'a'; 60];
    let large = read_request_blocking(&mut scratch, b"aaaaa", 64);
    assert!(matches!(large, ReadStep::Failed(ReadFailure::TooLarge)));
    let mut scratch = Vec::new();
    let bad = read_request_blocking(&mut scratch, b"\r\n\r\n", 64);
    assert!(matches!(bad, ReadStep::Failed(ReadFailure::Invalid(RequestError::MissingMethod))));
    assert_eq!(ReadFailure::ClosedEarly.message(), "connection closed mid-request");
    assert_eq!(ReadFailure::TooLarge.message(), "request exceeds maximum size");
    assert_eq!(ReadFailure::Invalid(RequestError::MissingMethod).message(), "missing method");
    assert_eq!(ReadFailure::Io(failed(FailureKind::Other)).message(), "x");
}

#[test]
fn turns_of_a_connection() {
    let rules = vec![ProxyRule::new("/api", "http://h").unwrap()];
    let turn = |served: usize, target: &str| {
        handle_connection(served, Ok(Some(request(target))), &rules, &runtime())
    };
    assert!(matches!(turn(0, "/x"), Turn::Files { keep_alive: true, .. }));
    assert!(matches!(turn(2, "/x"), Turn::Files { keep_alive: false, .. }));
    match turn(1, "/api") {
        Turn::Proxy { request, rule, keep_alive } => {
            assert_eq!(request.target, "/api");
            assert_eq!(rule.prefix, "/api");
            assert!(keep_alive);
        }
        other => panic!("expected a rule, got {:?}", other),
    }
    let mut chunked = request("/api");
    chunked.headers.push(("transfer-encoding".to_string(), "chunked".to_string()));
    match handle_connection(0, Ok(Some(chunked)), &rules, &runtime()) {
        Turn::Refuse(response) => assert!(response.head.starts_with(b"HTTP/1.1 501")),
        other => panic!("expected a refusal, got {:?}", other),
    }
    assert!(matches!(handle_connection(0, Ok(None), &rules, &runtime()), Turn::Close));
    for kind in [FailureKind::WouldBlock, FailureKind::TimedOut, FailureKind::UnexpectedEof] {
        let failure = Err(ReadFailure::Io(failed(kind)));
        assert!(matches!(handle_connection(0, failure, &rules, &runtime()), Turn::Close));
    }
    let early = Err(ReadFailure::ClosedEarly);
    assert!(matches!(handle_connection(0, early, &rules, &runtime()), Turn::Close));
    for failure in [
        ReadFailure::TooLarge,
        ReadFailure::Invalid(RequestError::InvalidHeader),
        ReadFailure::Io(failed(FailureKind::ConnectionReset)),
    ] {
        assert!(matches!(handle_connection(0, Err(failure), &rules, &runtime()), Turn::Fail { .. }));
    }
    let refusal = |failure: ReadFailure| {
        match handle_connection(0, Err(failure), &rules, &runtime()) {
            Turn::Fail { response, .. } => response,
            other => panic!("expected a failure, got {:?}", other),
        }
    };
    let large = refusal(ReadFailure::TooLarge).expect("an answer");
    assert!(large.close);
    assert_eq!(
        String::from_utf8(large.head).unwrap(),
        "HTTP/1.1 413 Payload Too Large\r\nServer: pear\r\nContent-Type: text/plain\r\nContent-Length: 17\r\nCache-Control: no-cache\r\nConnection: close\r\nKeep-Alive: timeout=5, max=3\r\n\r\nPayload Too Large"
    );
    let bad = refusal(ReadFailure::Invalid(RequestError::InvalidHeader)).expect("an answer");
    assert!(bad.close);
    assert!(bad.head.starts_with(b"HTTP/1.1 400 Bad Request\r\n"));
    assert!(refusal(ReadFailure::Io(failed(FailureKind::ConnectionReset))).is_none());
    assert_eq!(next_turn(0, true, false), Some(1));
    assert_eq!(next_turn(0, false, false), None);
    assert_eq!(next_turn(0, true, true), None);
}
