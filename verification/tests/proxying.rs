use pear::bytes::find_header_end;
use pear::request::Request;
use pear::rule::ProxyRule;
use pear::runtime::RuntimeConfig;
use pear::tls::{
    connect_upstream, connect_upstream_with_root_store, default_root_store, session_started,
    TlsError,
};
use pear::upstream::{
    copy_upstream_body, is_fd_exhausted, is_hop_by_hop_header, is_tls_close_notify_eof,
    proxy_request, proxy_request_streaming, rewrite_proxy_response_head,
    should_treat_upstream_eof_as_clean_close, upstream_content_length, write_proxy_request,
    BodyCopy, CopyStep, Exchange, ExchangeStep, FailureKind, HeadError, IoFailure, ProxyError,
    UpstreamRead,
};
use rcgen::generate_simple_self_signed;
use rustls::pki_types::{CertificateDer, PrivateKeyDer, PrivatePkcs8KeyDer};
use rustls::{ClientConnection, RootCertStore, ServerConfig, ServerConnection};
use std::io::{Read, Write};
use std::sync::Arc;

fn runtime() -> RuntimeConfig {
    RuntimeConfig {
        keep_alive_timeout_secs: 5,
        keep_alive_max: 100,
        max_events: 256,
        max_connections: 1024,
        max_request_size: 1024 * 1024,
    }
}

fn failure(kind: FailureKind, message: &str) -> IoFailure {
    IoFailure { kind, message: message.to_string(), os_code: None }
}

fn tls_close() -> IoFailure {
    failure(
        FailureKind::UnexpectedEof,
        "peer closed connection without sending TLS close_notify: see the documentation",
    )
}

fn get(target: &str, headers: &[(&str, &str)]) -> Request {
    Request {
        method: "GET".to_string(),
        target: target.to_string(),
        version: "HTTP/1.1".to_string(),
        headers: headers
            .iter()
            .map(|(name, value)| (name.to_string(), value.to_string()))
            .collect(),
        body: Vec::new(),
    }
}

fn data(bytes: &[u8]) -> UpstreamRead {
    UpstreamRead::Data(bytes.to_vec())
}

/// What an exchange passes on of `chunks` and the end after them, and whether it ended well.
fn exchanged(chunks: &[&[u8]], streaming: bool) -> (Vec<u8>, bool) {
    let mut exchange = Exchange::new();
    let mut out = Vec::new();
    let mut reads: Vec<UpstreamRead> = chunks.iter().map(|chunk| data(chunk)).collect();
    reads.push(UpstreamRead::Eof);
    for read in reads {
        let step = if streaming {
            proxy_request_streaming(&mut exchange, read, &runtime(), true)
        } else {
            proxy_request(&mut exchange, read, &runtime(), true)
        };
        match step {
            ExchangeStep::Read => {}
            ExchangeStep::Begin { head, body } => {
                out.extend(head);
                out.extend(body);
            }
            ExchangeStep::Whole { head } => {
                out.extend(head);
                return (out, true);
            }
            ExchangeStep::Pass { bytes, last } => {
                out.extend(bytes);
                if last {
                    return (out, true);
                }
            }
            ExchangeStep::Done => return (out, true),
            ExchangeStep::Failed(_) => return (out, false),
        }
    }
    (out, false)
}

#[test]
fn rewrites_proxy_response_connection_headers() {
    let upstream = b"HTTP/1.1 200 OK\r\nContent-Length: 4\r\nConnection: close\r\nKeep-Alive: timeout=1\r\nX-Test: ok";
    let rewritten = rewrite_proxy_response_head(upstream, &runtime(), true)
        .expect("rewrite should succeed");
    let text = String::from_utf8(rewritten).expect("response should be utf8");

    assert!(text.starts_with("HTTP/1.1 200 OK\r\n"));
    assert!(text.contains("Content-Length: 4\r\n"));
    assert!(text.contains("X-Test: ok\r\n"));
    assert!(text.contains("Connection: keep-alive\r\n"));
    assert!(text.contains("Keep-Alive: timeout=5, max=100\r\n"));
    assert!(!text.contains("Connection: close\r\n"));
    assert!(text.ends_with("\r\n\r\n"));
}

#[test]
fn whole_rewritten_head() {
    let upstream = b"HTTP/1.0 404 Nope\r\n A :  b \r\n\r\nproxy-CONNECTION: x\r\nB:";
    let rewritten = rewrite_proxy_response_head(upstream, &runtime(), false).unwrap();
    assert_eq!(
        String::from_utf8(rewritten).unwrap(),
        "HTTP/1.0 404 Nope\r\nA: b\r\nB: \r\nConnection: close\r\nKeep-Alive: timeout=5, max=100\r\n\r\n"
    );
}

#[test]
fn rewritten_head_reads_back() {
    let sent: &[u8] = b"HTTP/1.1 200 OK\r\nContent-Length: 4\r\nConnection: close\r\nA: b";
    let mut message = rewrite_proxy_response_head(sent, &runtime(), true).unwrap();
    message.extend_from_slice(b"\r\n\r\nx");
    let end = find_header_end(&message).expect("head should end");
    assert_eq!(&message[end + 4..], b"\r\n\r\nx");
    assert_eq!(upstream_content_length(&message[..end]), Some(4));
    assert_eq!(
        String::from_utf8(message[..end].to_vec()).unwrap(),
        "HTTP/1.1 200 OK\r\nContent-Length: 4\r\nA: b\r\nConnection: keep-alive\r\nKeep-Alive: timeout=5, max=100"
    );
}

#[test]
fn names_with_blanks_are_dropped_all_the_same() {
    let sent: &[u8] = b"HTTP/1.1 200 OK\r\n Connection : close\r\nKeep-Alive\t: timeout=1\r\nA: b";
    let rewritten = rewrite_proxy_response_head(sent, &runtime(), true).unwrap();
    assert_eq!(
        String::from_utf8(rewritten).unwrap(),
        "HTTP/1.1 200 OK\r\nA: b\r\nConnection: keep-alive\r\nKeep-Alive: timeout=5, max=100\r\n\r\n"
    );
}

#[test]
fn rewritten_head_is_rewritten_to_itself() {
    let sent: &[u8] = b"HTTP/1.1 200 OK\r\nConnection: close\r\n A :  b \r\nkeep-alive: x\r\nC:";
    let fewer: &[u8] = b"HTTP/1.1 200 OK\r\n A :  b \r\nC:";
    for keep_alive in [true, false] {
        let once = rewrite_proxy_response_head(sent, &runtime(), keep_alive).unwrap();
        assert!(once.ends_with(b"\r\n\r\n"));
        let twice =
            rewrite_proxy_response_head(&once[..once.len() - 4], &runtime(), keep_alive).unwrap();
        assert_eq!(twice, once);
        assert_eq!(rewrite_proxy_response_head(fewer, &runtime(), keep_alive).unwrap(), once);
    }
}

#[test]
fn heads_that_cannot_be_passed_on() {
    let error = |head: &[u8]| rewrite_proxy_response_head(head, &runtime(), true).unwrap_err();
    assert_eq!(error(b"HTTP/1.1 200 \xff"), HeadError::InvalidHeaders);
    assert_eq!(error(b"HTTP/1.1 200 OK\r\nConnection: x\r\nbad"), HeadError::InvalidHeader);
    assert_eq!(HeadError::InvalidHeaders.message(), "invalid upstream response headers");
    assert_eq!(HeadError::InvalidHeader.message(), "invalid upstream header");
}

#[test]
fn headers_about_one_connection() {
    assert!(is_hop_by_hop_header("Connection"));
    assert!(is_hop_by_hop_header("keep-ALIVE"));
    assert!(is_hop_by_hop_header("proxy-connection"));
    assert!(!is_hop_by_hop_header(" connection"));
    assert!(!is_hop_by_hop_header("te"));
}

#[test]
fn announced_lengths() {
    assert_eq!(upstream_content_length(b"HTTP/1.1 200 OK\r\n content-LENGTH : 7 "), Some(7));
    assert_eq!(upstream_content_length(b"Content-Length: 7"), None);
    assert_eq!(upstream_content_length(b"x\r\nContent-Length: a\r\nContent-Length: 7"), None);
    assert_eq!(upstream_content_length(b"x\r\nA: b"), None);
    assert_eq!(upstream_content_length(b"x\r\nContent-Length: 7\xff"), None);
}

#[test]
fn tls_close_notify_eof_is_treated_as_clean_after_complete_body() {
    let err = failure(
        FailureKind::UnexpectedEof,
        "peer closed connection without sending TLS close_notify",
    );
    assert!(should_treat_upstream_eof_as_clean_close(&err, 5, Some(5)));
    assert!(!should_treat_upstream_eof_as_clean_close(&err, 4, Some(5)));
    assert!(should_treat_upstream_eof_as_clean_close(&err, 1, None));
}

#[test]
fn other_failures_are_no_clean_close() {
    assert!(is_tls_close_notify_eof(&tls_close()));
    let other = failure(FailureKind::UnexpectedEof, "eof");
    assert!(!is_tls_close_notify_eof(&other));
    let reset = failure(
        FailureKind::ConnectionReset,
        "peer closed connection without sending TLS close_notify",
    );
    assert!(!is_tls_close_notify_eof(&reset));
    assert!(!should_treat_upstream_eof_as_clean_close(&reset, 9, None));
    assert!(!should_treat_upstream_eof_as_clean_close(&tls_close(), 0, None));
    assert!(should_treat_upstream_eof_as_clean_close(&tls_close(), 0, Some(0)));
}

#[test]
fn used_up_descriptors() {
    let code = |code: i32| IoFailure {
        kind: FailureKind::Other,
        message: String::new(),
        os_code: Some(code),
    };
    assert!(is_fd_exhausted(&code(23)));
    assert!(is_fd_exhausted(&code(24)));
    assert!(!is_fd_exhausted(&code(25)));
    assert!(!is_fd_exhausted(&tls_close()));
}

#[test]
fn copying_a_body() {
    let mut copy = BodyCopy { copied: 1, content_length: Some(4) };
    match copy_upstream_body(&mut copy, data(b"ab")) {
        CopyStep::Pass { bytes, last } => assert_eq!((bytes, last), (b"ab".to_vec(), false)),
        other => panic!("unexpected {:?}", other),
    }
    assert!(matches!(copy_upstream_body(&mut copy, UpstreamRead::Failed(tls_close())), CopyStep::Failed(_)));
    match copy_upstream_body(&mut copy, data(b"cd")) {
        CopyStep::Pass { bytes, last } => assert_eq!((bytes, last), (b"cd".to_vec(), true)),
        other => panic!("unexpected {:?}", other),
    }
    assert_eq!(copy.copied, 5);
    assert!(matches!(copy_upstream_body(&mut copy, UpstreamRead::Failed(tls_close())), CopyStep::Done));
    assert!(matches!(copy_upstream_body(&mut copy, UpstreamRead::Eof), CopyStep::Done));
    let mut full = BodyCopy { copied: usize::MAX, content_length: None };
    assert!(matches!(copy_upstream_body(&mut full, data(b"x")), CopyStep::Pass { last: false, .. }));
    assert_eq!(full.copied, usize::MAX);
}

#[test]
fn whole_forwarded_request() {
    let proxy = ProxyRule::new("/api", "http://h:81/b?k=1").unwrap();
    let mut request = get(
        "/api/x?y=2",
        &[
            ("Host", "pear.local"),
            ("X-Test", "a"),
            ("Connection", "keep-alive"),
            ("Proxy-Connection", "b"),
            ("Content-Length", "2"),
            ("Keep-Alive", "c"),
        ],
    );
    request.method = "POST".to_string();
    request.body = b"hi".to_vec();
    assert_eq!(
        String::from_utf8(write_proxy_request(&request, &proxy)).unwrap(),
        "POST /b/x?k=1&y=2 HTTP/1.1\r\nHost: h:81\r\nX-Forwarded-Host: pear.local\r\n\
         X-Forwarded-Proto: http\r\nX-Test: a\r\nContent-Length: 2\r\nKeep-Alive: c\r\n\
         Connection: close\r\n\r\nhi"
    );
    let bare = write_proxy_request(&get("/api", &[]), &proxy);
    assert!(String::from_utf8(bare).unwrap().contains("X-Forwarded-Host: \r\n"));
}

#[test]
fn forwarded_request_reads_back() {
    let proxy = ProxyRule::new("/api", "http://h").unwrap();
    let mut request = get("/api/x", &[("Host", "p"), ("Content-Length", "3")]);
    request.body = b"abc".to_vec();
    let bytes = write_proxy_request(&request, &proxy);
    let (read, used) = Request::parse_from_buffer(&bytes).unwrap().unwrap();
    assert_eq!(used, bytes.len());
    assert_eq!(read.method, "GET");
    assert_eq!(read.target, "/api/x");
    assert_eq!(read.body, b"abc");
    assert_eq!(
        read.headers,
        vec![
            ("Host".to_string(), "h".to_string()),
            ("X-Forwarded-Host".to_string(), "p".to_string()),
            ("X-Forwarded-Proto".to_string(), "http".to_string()),
            ("Content-Length".to_string(), "3".to_string()),
            ("Connection".to_string(), "close".to_string()),
        ]
    );
}

#[test]
fn proxy_request_handles_split_header_and_body_reads() {
    let proxy = ProxyRule::new("/api", "http://127.0.0.1:3000/secure")
        .expect("http proxy should parse");
    let request = get("/api", &[("Host", "pear.local")]);
    let sent = String::from_utf8(write_proxy_request(&request, &proxy)).expect("request");
    assert!(sent.starts_with("GET /secure HTTP/1.1\r\n"));

    let mut exchange = Exchange::new();
    let head = b"HTTP/1.1 200 OK\r\nContent-Length: 5\r\nConnection: close\r\n\r\n";
    let step = proxy_request(&mut exchange, data(head), &runtime(), true);
    let (head, mut body) = match step {
        ExchangeStep::Begin { head, body } => (head, body),
        other => panic!("expected the head, got {:?}", other),
    };
    match proxy_request(&mut exchange, data(b"hello"), &runtime(), true) {
        ExchangeStep::Pass { bytes, last } => {
            body.extend(bytes);
            assert!(last);
        }
        other => panic!("expected the body, got {:?}", other),
    }
    let text = String::from_utf8(head).expect("head should be utf8");

    assert!(text.starts_with("HTTP/1.1 200 OK\r\n"));
    assert!(text.contains("Content-Length: 5\r\n"));
    assert_eq!(body, b"hello");
}

#[test]
fn pieces_of_an_answer_do_not_matter() {
    let sent: &[u8] = b"HTTP/1.1 200 OK\r\nA: b\r\n\r\nbody \r\n\r\n bytes";
    let expected = exchanged(&[sent], true);
    assert!(expected.1);
    assert!(String::from_utf8(expected.0.clone()).unwrap().ends_with("\r\n\r\nbody \r\n\r\n bytes"));
    for cut in 0..sent.len() {
        for streaming in [true, false] {
            assert_eq!(exchanged(&[&sent[..cut], &sent[cut..]], streaming), expected);
        }
    }
    let single: Vec<&[u8]> = sent.chunks(1).collect();
    assert_eq!(exchanged(&single, true), expected);
    assert_eq!(exchanged(&single, false), expected);
}

#[test]
fn empty_body_is_complete_with_its_head() {
    let sent: &[u8] = b"HTTP/1.1 204 No\r\nContent-Length: 0\r\n\r\n";
    let mut exchange = Exchange::new();
    assert!(matches!(
        proxy_request(&mut exchange, data(sent), &runtime(), true),
        ExchangeStep::Whole { .. }
    ));
    let mut exchange = Exchange::new();
    assert!(matches!(
        proxy_request_streaming(&mut exchange, data(sent), &runtime(), true),
        ExchangeStep::Begin { .. }
    ));
    assert_eq!(exchanged(&[sent], true), exchanged(&[sent], false));
}

#[test]
fn body_that_comes_with_its_head_is_read_past() {
    let sent: &[u8] = b"HTTP/1.1 200 OK\r\nContent-Length: 5\r\n\r\nhello";
    let after = |read: UpstreamRead| {
        let mut exchange = Exchange::new();
        match proxy_request(&mut exchange, data(sent), &runtime(), true) {
            ExchangeStep::Begin { body, .. } => assert_eq!(body, b"hello"),
            other => panic!("expected the answer, got {:?}", other),
        }
        proxy_request(&mut exchange, read, &runtime(), true)
    };
    assert!(matches!(after(UpstreamRead::Eof), ExchangeStep::Done));
    assert!(matches!(after(UpstreamRead::Failed(tls_close())), ExchangeStep::Done));
    let late = after(UpstreamRead::Failed(failure(FailureKind::TimedOut, "timed out")));
    assert!(matches!(late, ExchangeStep::Failed(ProxyError::Io(_))));
    match after(data(b"more")) {
        ExchangeStep::Pass { bytes, last } => {
            assert_eq!(bytes, b"more");
            assert!(last);
        }
        other => panic!("expected more, got {:?}", other),
    }
}

#[test]
fn exchanges_that_fail() {
    let fail = |reads: Vec<UpstreamRead>| {
        let mut exchange = Exchange::new();
        let mut last = None;
        for read in reads {
            last = Some(proxy_request(&mut exchange, read, &runtime(), true));
        }
        match last {
            Some(ExchangeStep::Failed(error)) => error,
            other => panic!("expected a failure, got {:?}", other),
        }
    };
    let early = fail(vec![data(b"HTTP/1.1 200"), UpstreamRead::Eof]);
    assert!(matches!(early, ProxyError::ClosedEarly));
    assert_eq!(early.message(), "upstream closed before sending headers");
    let head = fail(vec![data(b"HTTP/1.1 200 OK\r\nbad\r\n\r\n")]);
    assert!(matches!(head, ProxyError::Head(HeadError::InvalidHeader)));
    assert_eq!(head.message(), "invalid upstream header");
    let io = fail(vec![UpstreamRead::Failed(tls_close())]);
    assert!(io.message().starts_with("peer closed"));
    let cut = fail(vec![
        data(b"HTTP/1.1 200 OK\r\nContent-Length: 5\r\n\r\nhell"),
        UpstreamRead::Failed(tls_close()),
    ]);
    assert!(matches!(cut, ProxyError::Io(_)));
}

#[test]
fn roots_come_from_the_list() {
    let store = default_root_store();
    assert_eq!(store.roots, webpki_roots::TLS_SERVER_ROOTS.to_vec());
    assert!(store.roots.len() > 100);
}

#[test]
fn sessions_only_with_names_of_servers() {
    let plain = ProxyRule::new("/a", "http://not_a_name!").unwrap();
    assert!(matches!(connect_upstream(&plain), Ok(None)));
    let wrong = ProxyRule::new("/a", "https://not a name").unwrap();
    match connect_upstream(&wrong) {
        Err(error) => assert_eq!(error.message(), "invalid upstream host"),
        Ok(_) => panic!("expected a refusal"),
    }
    let dns = ProxyRule::new("/a", "https://example.com").unwrap();
    assert!(matches!(connect_upstream(&dns), Ok(Some(_))));
    let ip = ProxyRule::new("/a", "https://[::1]:99").unwrap();
    assert!(matches!(connect_upstream(&ip), Ok(Some(_))));
}

#[test]
fn failed_sessions_are_described() {
    match session_started(Err(rustls::Error::EncryptError)) {
        Err(error) => {
            assert!(matches!(error, TlsError::Setup(_)));
            assert_eq!(error.message(), "TLS setup failed: cannot encrypt message");
        }
        Ok(_) => panic!("expected a failure"),
    }
}

/// Moves what each side has to send to the other, until neither has more.
fn pump(client: &mut ClientConnection, server: &mut ServerConnection) {
    while client.wants_write() || server.wants_write() {
        let mut wire = Vec::new();
        while client.wants_write() {
            client.write_tls(&mut wire).expect("client should write");
        }
        let mut rest = wire.as_slice();
        while !rest.is_empty() {
            server.read_tls(&mut rest).expect("server should read");
            server.process_new_packets().expect("server should accept");
        }
        let mut wire = Vec::new();
        while server.wants_write() {
            server.write_tls(&mut wire).expect("server should write");
        }
        let mut rest = wire.as_slice();
        while !rest.is_empty() {
            client.read_tls(&mut rest).expect("client should read");
            client.process_new_packets().expect("client should accept");
        }
    }
}

#[test]
fn proxy_request_supports_https_upstream() {
    let certified =
        generate_simple_self_signed(vec!["localhost".to_string(), "127.0.0.1".to_string()])
            .expect("certificate should generate");
    let cert_der: CertificateDer<'static> = certified.cert.der().clone();
    let key_der: PrivateKeyDer<'static> =
        PrivatePkcs8KeyDer::from(certified.key_pair.serialize_der()).into();
    let server_config = ServerConfig::builder()
        .with_no_client_auth()
        .with_single_cert(vec![cert_der.clone()], key_der)
        .expect("server config should build");
    let mut root_store = RootCertStore::empty();
    root_store.add(cert_der).expect("test cert should be trusted");

    let port = 8443;
    let proxy = ProxyRule::new("/api", &format!("https://localhost:{port}/secure"))
        .expect("https proxy should parse");
    let request = get("/api", &[("Host", "pear.local"), ("X-Forwarded-Proto", "https")]);

    let mut client = connect_upstream_with_root_store(&proxy, root_store)
        .ok()
        .flatten()
        .expect("session should start");
    let mut server = ServerConnection::new(Arc::new(server_config)).expect("tls server");
    client
        .writer()
        .write_all(&write_proxy_request(&request, &proxy))
        .expect("request should write");
    pump(&mut client, &mut server);

    let mut received = vec![0_u8; 4096];
    let read = server.reader().read(&mut received).expect("request should read");
    received.truncate(read);
    let request_text = String::from_utf8(received).expect("request should be utf8");
    assert!(request_text.starts_with("GET /secure HTTP/1.1\r\n"));
    assert!(request_text.contains(&format!("Host: localhost:{port}\r\n")));
    assert!(request_text.contains("X-Forwarded-Proto: https\r\n"));

    server
        .writer()
        .write_all(b"HTTP/1.1 200 OK\r\nContent-Length: 5\r\nConnection: close\r\n\r\nhello")
        .expect("response should write");
    server.send_close_notify();
    pump(&mut client, &mut server);

    let mut exchange = Exchange::new();
    let mut answer = vec![0_u8; 4096];
    let read = client.reader().read(&mut answer).expect("response should read");
    answer.truncate(read);
    let (head, body) = match proxy_request(&mut exchange, UpstreamRead::Data(answer), &runtime(), true) {
        ExchangeStep::Begin { head, body } => (head, body),
        other => panic!("https proxy request should succeed, got {:?}", other),
    };
    let mut rest = [0_u8; 16];
    assert_eq!(client.reader().read(&mut rest).expect("end should read"), 0);
    assert!(matches!(
        proxy_request(&mut exchange, UpstreamRead::Eof, &runtime(), true),
        ExchangeStep::Done
    ));
    let text = String::from_utf8(head).expect("head should be utf8");

    assert!(text.starts_with("HTTP/1.1 200 OK\r\n"));
    assert!(text.contains("Connection: keep-alive\r\n"));
    assert_eq!(body, b"hello");
}

#[test]
fn servers_that_no_root_vouches_for_are_refused() {
    let certified = generate_simple_self_signed(vec!["localhost".to_string()])
        .expect("certificate should generate");
    let key_der: PrivateKeyDer<'static> =
        PrivatePkcs8KeyDer::from(certified.key_pair.serialize_der()).into();
    let server_config = ServerConfig::builder()
        .with_no_client_auth()
        .with_single_cert(vec![certified.cert.der().clone()], key_der)
        .expect("server config should build");
    let proxy = ProxyRule::new("/api", "https://localhost").expect("rule");
    let mut client = connect_upstream(&proxy).ok().flatten().expect("session should start");
    let mut server = ServerConnection::new(Arc::new(server_config)).expect("tls server");
    let mut wire = Vec::new();
    client.write_tls(&mut wire).expect("client should write");
    server.read_tls(&mut wire.as_slice()).expect("server should read");
    server.process_new_packets().expect("server should accept");
    let mut wire = Vec::new();
    while server.wants_write() {
        server.write_tls(&mut wire).expect("server should write");
    }
    let mut rest = wire.as_slice();
    let mut refused = false;
    while !rest.is_empty() && !refused {
        client.read_tls(&mut rest).expect("client should read");
        refused = client.process_new_packets().is_err();
    }
    assert!(refused);
}
