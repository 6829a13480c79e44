use pear::bytes::find_header_end;
use pear::request::{
    forwarded_proto, has_chunked_transfer_encoding, header_value, wants_keep_alive, Request,
    RequestError,
};

fn request(version: &str, connection: Option<&str>) -> Request {
    let mut headers = Vec::new();
    if let Some(value) = connection {
        headers.push(("Connection".to_string(), value.to_string()));
    }
    Request {
        method: "GET".to_string(),
        target: "/".to_string(),
        version: version.to_string(),
        headers,
        body: Vec::new(),
    }
}

fn with_header(name: &str, value: &str) -> Request {
    let mut made = request("HTTP/1.1", None);
    made.headers.push((name.to_string(), value.to_string()));
    made
}

#[test]
fn parses_request_with_body_from_buffer() {
    let raw = b"POST /api/items HTTP/1.1\r\nHost: example.test\r\nContent-Length: 5\r\n\r\nhello";
    let parsed = Request::parse_from_buffer(raw)
        .expect("request parse should succeed")
        .expect("request should be complete");

    assert_eq!(parsed.1, raw.len());
    assert_eq!(parsed.0.method, "POST");
    assert_eq!(parsed.0.target, "/api/items");
    assert_eq!(parsed.0.version, "HTTP/1.1");
    assert_eq!(parsed.0.body, b"hello");
}

#[test]
fn returns_none_for_incomplete_request_buffer() {
    let raw = b"POST /api/items HTTP/1.1\r\nContent-Length: 5\r\n\r\nhel";
    let parsed = Request::parse_from_buffer(raw).expect("partial parse should not fail");
    assert!(parsed.is_none());
}

#[test]
fn http11_defaults_to_keep_alive() {
    assert!(wants_keep_alive(&request("HTTP/1.1", None)));
    assert!(!wants_keep_alive(&request("HTTP/1.1", Some("close"))));
}

#[test]
fn http10_requires_explicit_keep_alive() {
    assert!(!wants_keep_alive(&request("HTTP/1.0", None)));
    assert!(wants_keep_alive(&request("HTTP/1.0", Some("keep-alive"))));
}

#[test]
fn keep_alive_ignores_the_case_of_letters() {
    assert!(!wants_keep_alive(&request("HTTP/1.1", Some("Close"))));
    assert!(wants_keep_alive(&request("HTTP/1.0", Some("Keep-Alive"))));
    assert!(wants_keep_alive(&request("HTTP/1.1", Some("upgrade"))));
    assert!(!wants_keep_alive(&request("HTTP/1.0", Some("upgrade"))));
}

#[test]
fn head_ends_at_the_first_empty_line() {
    assert_eq!(find_header_end(b""), None);
    assert_eq!(find_header_end(b"\r\n\r"), None);
    assert_eq!(find_header_end(b"\r\n\r\n"), Some(0));
    assert_eq!(find_header_end(b"ab\r\n\r\ncd\r\n\r\n"), Some(2));
    assert_eq!(find_header_end(b"a\r\r\n\r\n"), Some(2));
}

#[test]
fn no_request_while_the_head_has_not_ended() {
    assert!(matches!(Request::parse_from_buffer(b"GET / HTTP/1.1\r\nHost: a\r\n"), Ok(None)));
}

#[test]
fn missing_version_is_http11() {
    let parsed = Request::parse_from_buffer(b"GET /x\r\n\r\nrest").unwrap().unwrap();
    assert_eq!(parsed.0.version, "HTTP/1.1");
    assert_eq!(parsed.0.target, "/x");
    assert_eq!(parsed.1, 10);
    assert!(parsed.0.body.is_empty());
    assert!(parsed.0.headers.is_empty());
}

#[test]
fn headers_are_trimmed_and_keep_their_order() {
    let raw = b"GET /  HTTP/1.1  extra\r\n A : b:c \r\nA:d\r\n\r\n";
    let parsed = Request::parse_from_buffer(raw).unwrap().unwrap().0;
    assert_eq!(
        parsed.headers,
        vec![
            ("A".to_string(), "b:c".to_string()),
            ("A".to_string(), "d".to_string())
        ]
    );
    assert_eq!(parsed.version, "HTTP/1.1");
    assert_eq!(header_value(&parsed, "a"), Some("b:c"));
    assert_eq!(header_value(&parsed, "b"), None);
}

#[test]
fn errors_of_a_request() {
    let error = |raw: &[u8]| Request::parse_from_buffer(raw).unwrap_err();
    assert_eq!(error(b"GET /\xff HTTP/1.1\r\n\r\n"), RequestError::InvalidHeaders);
    assert_eq!(error(b"\r\n\r\n"), RequestError::MissingMethod);
    assert_eq!(error(b" \r\nHost: a\r\n\r\n"), RequestError::MissingMethod);
    assert_eq!(error(b"GET\r\n\r\n"), RequestError::MissingTarget);
    assert_eq!(error(b"GET / HTTP/1.1\r\nHost\r\n\r\n"), RequestError::InvalidHeader);
    assert_eq!(RequestError::InvalidHeaders.message(), "invalid request headers");
    assert_eq!(RequestError::MissingMethod.message(), "missing method");
    assert_eq!(RequestError::MissingTarget.message(), "missing target");
    assert_eq!(RequestError::InvalidHeader.message(), "invalid header");
}

#[test]
fn content_length_that_is_no_number_is_zero() {
    let raw = b"GET / HTTP/1.1\r\nContent-Length: x\r\nContent-Length: 3\r\n\r\nabc";
    let parsed = Request::parse_from_buffer(raw).unwrap().unwrap();
    assert!(parsed.0.body.is_empty());
    assert_eq!(parsed.1, raw.len() - 3);
}

#[test]
fn content_length_may_carry_a_plus_sign() {
    let raw = b"GET / HTTP/1.1\r\ncontent-length: +2\r\n\r\nabc";
    let parsed = Request::parse_from_buffer(raw).unwrap().unwrap();
    assert_eq!(parsed.0.body, b"ab");
}

#[test]
fn enormous_content_length_waits_for_more() {
    let raw = b"GET / HTTP/1.1\r\nContent-Length: 18446744073709551615\r\n\r\nabc";
    assert!(matches!(Request::parse_from_buffer(raw), Ok(None)));
    let raw = b"GET / HTTP/1.1\r\nContent-Length: 18446744073709551616\r\n\r\nabc";
    assert!(Request::parse_from_buffer(raw).unwrap().unwrap().0.body.is_empty());
}

#[test]
fn a_request_is_the_same_whatever_follows() {
    let one = b"POST /a HTTP/1.1\r\nContent-Length: 2\r\n\r\nhi";
    let mut two = one.to_vec();
    two.extend_from_slice(b"GET /b HTTP/1.1\r\n\r\n");
    let (first, used) = Request::parse_from_buffer(one).unwrap().unwrap();
    let (again, used_again) = Request::parse_from_buffer(&two).unwrap().unwrap();
    assert_eq!(used, one.len());
    assert_eq!(used, used_again);
    assert_eq!(first.target, again.target);
    assert_eq!(first.body, again.body);
    let next = Request::parse_from_buffer(&two[used..]).unwrap().unwrap();
    assert_eq!(next.0.target, "/b");
}

#[test]
fn unicode_white_space_parts_the_request_line() {
    let raw = "GET\u{2003}/ä\u{a0}HTTP/1.0\r\n\r\n".as_bytes();
    let parsed = Request::parse_from_buffer(raw).unwrap().unwrap().0;
    assert_eq!(parsed.method, "GET");
    assert_eq!(parsed.target, "/ä");
    assert_eq!(parsed.version, "HTTP/1.0");
}

#[test]
fn chunked_transfer_encoding_is_recognised() {
    assert!(has_chunked_transfer_encoding(&with_header("Transfer-Encoding", "chunked")));
    assert!(has_chunked_transfer_encoding(&with_header("transfer-encoding", "gzip, CHUNKED ")));
    assert!(!has_chunked_transfer_encoding(&with_header("Transfer-Encoding", "gzip")));
    assert!(!has_chunked_transfer_encoding(&with_header("Transfer-Encoding", "chunkedx")));
    assert!(!has_chunked_transfer_encoding(&with_header("TE", "chunked")));
}

#[test]
fn protocol_of_the_client() {
    assert_eq!(forwarded_proto(&request("HTTP/1.1", None)), "http");
    assert_eq!(forwarded_proto(&with_header("x-forwarded-proto", "https")), "https");
}
