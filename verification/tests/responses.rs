use pear::bytes::find_header_end;
use pear::path::PathStyle;
use pear::request::Request;
use pear::response::{
    build_head_response, build_response, busy_response, connection_headers, Response, ResponseBody,
};
use pear::runtime::RuntimeConfig;
use pear::static_files::{
    serve_static, FileStep, Found, LookStep, Lookup, INLINE_FILE_THRESHOLD,
};
use pear::upstream::upstream_content_length;

fn runtime() -> RuntimeConfig {
    RuntimeConfig {
        keep_alive_timeout_secs: 5,
        keep_alive_max: 100,
        max_events: 256,
        max_connections: 1024,
        max_request_size: 1024 * 1024,
    }
}

fn request(method: &str, target: &str) -> Request {
    Request {
        method: method.to_string(),
        target: target.to_string(),
        version: "HTTP/1.1".to_string(),
        headers: Vec::new(),
        body: Vec::new(),
    }
}

fn search(method: &str, target: &str, spa_fallback: bool) -> Lookup {
    match serve_static(&request(method, target), spa_fallback, &runtime(), true, PathStyle::Unix) {
        LookStep::Look(lookup) => lookup,
        other => panic!("expected a search, got {:?}", other),
    }
}

fn look(step: LookStep) -> Lookup {
    match step {
        LookStep::Look(lookup) => lookup,
        other => panic!("expected another look, got {:?}", other),
    }
}

fn answer(step: LookStep) -> Response {
    match step {
        LookStep::Respond(response) => response,
        other => panic!("expected a response, got {:?}", other),
    }
}

fn head(response: &Response) -> String {
    String::from_utf8(response.head.clone()).expect("head should be utf8")
}

fn checked(step: LookStep, inside: bool) -> FileStep {
    match step {
        LookStep::Check(candidate) => candidate.checked(inside),
        other => panic!("expected a file, got {:?}", other),
    }
}

#[test]
fn head_response_uses_runtime_keep_alive_values() {
    let bytes = build_head_response(200, "OK", "text/plain", 3, true, &runtime());
    let text = String::from_utf8(bytes).expect("header should be utf8");

    assert!(text.contains("Connection: keep-alive\r\n"));
    assert!(text.contains("Keep-Alive: timeout=5, max=100\r\n"));
    assert!(text.contains("Content-Length: 3\r\n"));
}

#[test]
fn whole_response() {
    let bytes = build_response(404, "Not Found", "text/plain", b"gone", false, &runtime());
    assert_eq!(
        String::from_utf8(bytes).unwrap(),
        "HTTP/1.1 404 Not Found\r\nServer: pear\r\nContent-Type: text/plain\r\n\
         Content-Length: 4\r\nCache-Control: no-cache\r\nConnection: close\r\n\
         Keep-Alive: timeout=5, max=100\r\n\r\ngone"
    );
    assert_eq!(
        connection_headers(&runtime(), true),
        "Connection: keep-alive\r\nKeep-Alive: timeout=5, max=100\r\n"
    );
    assert_eq!(
        busy_response(),
        b"HTTP/1.1 503 Service Unavailable\r\nServer: pear\r\nContent-Length: 0\r\nConnection: close\r\n\r\n"
    );
}

#[test]
fn responses_read_back() {
    for body in [&b""[..], b"gone", b"\r\n\r\n"] {
        let bytes = build_response(200, "Fine", "a/b", body, true, &runtime());
        let end = find_header_end(&bytes).expect("head should end");
        assert_eq!(&bytes[end + 4..], body);
        assert_eq!(upstream_content_length(&bytes[..end]), Some(body.len()));
        assert!(bytes.starts_with(b"HTTP/1.1 200 Fine\r\nServer: pear\r\n"));
    }
}

#[test]
fn kinds_of_responses() {
    let complete = Response::new(vec![1]);
    assert_eq!((complete.head, complete.body, complete.close), (vec![1], ResponseBody::Empty, false));
    let last = Response::close(vec![1]);
    assert_eq!((last.head, last.body, last.close), (vec![1], ResponseBody::Empty, true));
    let file = Response::streamed(vec![1]);
    assert_eq!((file.head, file.body, file.close), (vec![1], ResponseBody::File, false));
    let temp = Response::with_temp_body(vec![1]);
    assert_eq!((temp.head, temp.body, temp.close), (vec![1], ResponseBody::TempFile, false));
}

#[test]
fn missing_spa_fallback_index_returns_404_instead_of_io_error() {
    let lookup = search("GET", "/missing", true);
    assert_eq!(lookup.path, "missing");
    let fallback = look(lookup.looked(Found::Other));
    assert_eq!(fallback.path, "index.html");
    let response = answer(fallback.looked(Found::Other));
    let text = String::from_utf8(response.head).expect("response should be utf8");
    assert!(text.starts_with("HTTP/1.1 404 Not Found\r\n"));
}

#[test]
fn static_get_inlines_small_file_body() {
    let index = look(search("GET", "/", true).looked(Found::Directory));
    assert_eq!(index.path, "index.html");
    let response = match checked(index.looked(Found::File(11)), true) {
        FileStep::Read(candidate) => {
            assert_eq!(candidate.path, "index.html");
            candidate.read(b"hello world")
        }
        other => panic!("expected inline small file body, got {:?}", other),
    };

    assert!(response.head.starts_with(b"HTTP/1.1 200 OK\r\n"));
    assert!(response.head.ends_with(b"\r\nhello world"));
    match response.body {
        ResponseBody::Empty => {}
        ResponseBody::File => panic!("expected inline small file body"),
        ResponseBody::TempFile => panic!("expected static file body, not temp body"),
    }
}

#[test]
fn static_get_streams_large_file_body() {
    let index = look(search("GET", "/", true).looked(Found::Directory));
    let found = Found::File(INLINE_FILE_THRESHOLD + 1);
    let response = match checked(index.looked(found), true) {
        FileStep::Stream { path, response } => {
            assert_eq!(path, "index.html");
            response
        }
        other => panic!("expected streamed large file body, got {:?}", other),
    };

    assert!(response.head.starts_with(b"HTTP/1.1 200 OK\r\n"));
    assert!(head(&response).contains("Content-Length: 16385\r\n"));
    match response.body {
        ResponseBody::File => {}
        ResponseBody::TempFile => panic!("expected static file body, not temp body"),
        ResponseBody::Empty => panic!("expected streamed large file body"),
    }
}

#[test]
fn methods_other_than_get_and_head_are_refused() {
    let response = answer(serve_static(&request("POST", "/"), true, &runtime(), true, PathStyle::Unix));
    assert!(head(&response).starts_with("HTTP/1.1 405 Method Not Allowed\r\n"));
    assert!(head(&response).contains("Connection: keep-alive\r\n"));
    assert!(head(&response).ends_with("\r\n\r\nMethod Not Allowed"));
    assert!(!response.close);
    let response = answer(serve_static(&request("get", "/"), true, &runtime(), true, PathStyle::Unix));
    assert!(head(&response).starts_with("HTTP/1.1 405"));
}

#[test]
fn unsafe_targets_are_refused() {
    let response = answer(serve_static(&request("GET", "/../x"), true, &runtime(), true, PathStyle::Unix));
    assert!(head(&response).starts_with("HTTP/1.1 400 Bad Request\r\n"));
    assert!(head(&response).contains("Connection: close\r\n"));
    assert!(!response.close);
    let target = "/a\\..\\..\\x";
    let step = serve_static(&request("GET", target), true, &runtime(), true, PathStyle::Windows);
    assert!(head(&answer(step)).starts_with("HTTP/1.1 400 Bad Request\r\n"));
    assert_eq!(search("GET", target, true).path, target[1..]);
}

#[test]
fn drives_in_later_steps_are_looked_at() {
    let found = |target: &str, index: bool| {
        let step = serve_static(&request("GET", target), true, &runtime(), true, PathStyle::Windows);
        let mut lookup = look(step);
        if index {
            lookup = look(lookup.looked(Found::Directory));
        }
        let path = lookup.path.clone();
        match checked(lookup.looked(Found::File(0)), true) {
            FileStep::Read(candidate) => (path, head(&candidate.read(b""))),
            other => panic!("expected a file, got {:?}", other),
        }
    };
    let (path, text) = found("/foo/C:/bar.css", false);
    assert_eq!(path, "C:bar.css");
    assert!(text.contains("Content-Type: text/css; charset=utf-8\r\n"));
    let (path, text) = found("/foo/C:/.css", false);
    assert_eq!(path, "C:.css");
    assert!(text.contains("Content-Type: application/octet-stream\r\n"));
    assert_eq!(found("/foo/C:", true).0, "C:index.html");
    assert_eq!(found("/foo/C:/a", true).0, "C:a/index.html");
    assert_eq!(found("/foo", true).0, "foo/index.html");
    assert_eq!(found("/", true).0, "index.html");
}

#[test]
fn no_fallback_means_not_found() {
    let response = answer(search("GET", "/missing", false).looked(Found::Other));
    assert!(head(&response).starts_with("HTTP/1.1 404 Not Found\r\n"));
    let index = look(search("GET", "/dir/", false).looked(Found::Directory));
    assert_eq!(index.path, "dir/index.html");
    let response = answer(index.looked(Found::Directory));
    assert!(head(&response).starts_with("HTTP/1.1 404 Not Found\r\n"));
}

#[test]
fn directory_without_index_falls_back() {
    let index = look(search("GET", "/dir", true).looked(Found::Directory));
    let fallback = look(index.looked(Found::Other));
    assert_eq!(fallback.path, "index.html");
    assert!(matches!(fallback.looked(Found::File(1)), LookStep::Check(_)));
}

#[test]
fn unknown_route_gets_the_index() {
    let from_route = look(search("GET", "/some/route", true).looked(Found::Other));
    let from_index = search("GET", "/index.html", true);
    let one = checked(from_route.looked(Found::File(3)), true);
    let two = checked(from_index.looked(Found::File(3)), true);
    match (one, two) {
        (FileStep::Read(a), FileStep::Read(b)) => {
            assert_eq!(a.read(b"abc").head, b.read(b"abc").head);
        }
        _ => panic!("expected two small files"),
    }
}

#[test]
fn files_outside_the_root_are_not_found() {
    let found = search("GET", "/link", true).looked(Found::File(3));
    match checked(found, false) {
        FileStep::Respond(response) => {
            assert!(head(&response).starts_with("HTTP/1.1 404 Not Found\r\n"));
        }
        other => panic!("expected a refusal, got {:?}", other),
    }
}

#[test]
fn head_request_gets_the_head_of_get() {
    let small = |method: &str| checked(search(method, "/a.css", true).looked(Found::File(2)), true);
    let only = match small("HEAD") {
        FileStep::Respond(response) => response,
        other => panic!("expected a response, got {:?}", other),
    };
    let whole = match small("GET") {
        FileStep::Read(candidate) => candidate.read(b"{}"),
        other => panic!("expected a small file, got {:?}", other),
    };
    assert_eq!(whole.head, [only.head.clone(), b"{}".to_vec()].concat());
    assert_eq!(find_header_end(&whole.head).map(|end| end + 4), Some(only.head.len()));
    assert!(head(&only).contains("Content-Type: text/css; charset=utf-8\r\n"));
    assert!(head(&only).contains("Content-Length: 2\r\n"));
}

#[test]
fn threshold_of_inline_files() {
    let at = |len: u64| checked(search("GET", "/a", true).looked(Found::File(len)), true);
    assert!(matches!(at(0), FileStep::Read(_)));
    assert!(matches!(at(16384), FileStep::Read(_)));
    assert!(matches!(at(16385), FileStep::Stream { .. }));
}
