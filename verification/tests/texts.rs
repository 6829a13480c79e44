use pear::bytes::{decode, encode};
use pear::number::{push_decimal, read_u16, read_usize};
use pear::path::{
    clean_request_path, content_type, from_hex, is_below, percent_decode, PathStyle,
};
use pear::text::{chars_of, cut_lines, is_space_char, string_of};
use std::path::PathBuf;

#[test]
fn white_space_is_what_char_says() {
    for code in 0..0x110000_u32 {
        if let Some(c) = char::from_u32(code) {
            assert_eq!(is_space_char(c), c.is_whitespace(), "{:x}", code);
        }
    }
}

#[test]
fn texts_go_to_characters_and_back() {
    let text = "aä€😀\n";
    assert_eq!(chars_of(text), text.chars().collect::<Vec<_>>());
    assert_eq!(string_of(&chars_of(text)), text);
}

#[test]
fn bytes_are_text_only_in_utf8() {
    assert_eq!(encode("aä€😀"), "aä€😀".as_bytes());
    assert_eq!(decode("aä€😀".as_bytes()), Some(vec!['a', 'ä', '€', '😀']));
    assert_eq!(decode(b"a\xff"), None);
    assert_eq!(decode(b"\xc0\x80"), None);
    assert_eq!(decode(b"\xed\xa0\x80"), None);
    assert_eq!(decode(b"\xe2\x82"), None);
    assert_eq!(decode(b""), Some(Vec::new()));
}

#[test]
fn lines_are_those_of_str() {
    for text in ["", "a", "a\n", "\n", "a\r\nb\n\nc", "a\r", "a\r\r\n", "\r\n", "a\rb\n"] {
        let chars = chars_of(text);
        let ours: Vec<String> = cut_lines(&chars).iter().map(|line| string_of(line)).collect();
        let theirs: Vec<String> = text.lines().map(str::to_string).collect();
        assert_eq!(ours, theirs, "{:?}", text);
    }
}

#[test]
fn numbers_are_those_of_parse() {
    for text in [
        "", "+", "-", "0", "+0", "-0", "7", "+7", "++7", "007", "65535", "65536", "99999", "1 ",
        " 1", "1a", "18446744073709551615", "18446744073709551616", "99999999999999999999999", "٣",
    ] {
        let chars = chars_of(text);
        assert_eq!(read_usize(&chars), text.parse::<usize>().ok(), "{:?}", text);
        assert_eq!(read_u16(&chars), text.parse::<u16>().ok(), "{:?}", text);
    }
}

#[test]
fn decimals_are_those_of_format_and_read_back() {
    for n in [0_u64, 1, 9, 10, 11, 99, 100, 8080, 1048576, u64::MAX] {
        let mut out = "n=".to_string();
        push_decimal(&mut out, n);
        assert_eq!(out, format!("n={}", n));
        assert_eq!(read_usize(&chars_of(&out[2..])), Some(n as usize));
    }
}

#[test]
fn cleans_and_rejects_unsafe_paths() {
    let clean = |target: &str| clean_request_path(target, PathStyle::Unix).map(PathBuf::from);
    assert_eq!(
        clean("/assets/app.js?x=1"),
        Some(PathBuf::from("assets/app.js"))
    );
    assert_eq!(
        clean("/nested/%66ile.txt"),
        Some(PathBuf::from("nested/file.txt"))
    );
    assert_eq!(clean("/../secret.txt"), None);
    assert_eq!(clean("/bad/%zz"), None);
}

#[test]
fn paths_stay_inside() {
    let clean = |target: &str| clean_request_path(target, PathStyle::Unix);
    assert_eq!(clean("/").as_deref(), Some(""));
    assert_eq!(clean("").as_deref(), Some(""));
    assert_eq!(clean("//a//./b/.").as_deref(), Some("a/b"));
    assert_eq!(clean("/a/..").as_deref(), None);
    assert_eq!(clean("/a/%2e%2e/b").as_deref(), None);
    assert_eq!(clean("/%2e%2e").as_deref(), None);
    assert_eq!(clean("/%2Fetc/passwd").as_deref(), Some("etc/passwd"));
    assert_eq!(clean("/a...b/..c").as_deref(), Some("a...b/..c"));
    assert_eq!(clean("/a?/../b").as_deref(), Some("a"));
    assert_eq!(clean("./a").as_deref(), Some("a"));
    assert_eq!(clean("/a\\..\\b").as_deref(), Some("a\\..\\b"));
    assert_eq!(clean("/C:/b").as_deref(), Some("C:/b"));
}

#[test]
fn paths_stay_inside_on_windows() {
    let clean = |target: &str| clean_request_path(target, PathStyle::Windows);
    assert_eq!(clean("/assets/app.js?x=1").as_deref(), Some("assets/app.js"));
    assert_eq!(clean("/a\\b/.\\c").as_deref(), Some("a/b/c"));
    assert_eq!(clean("/a%5Cb").as_deref(), Some("a/b"));
    assert_eq!(clean("/../a"), None);
    assert_eq!(clean("/a\\..\\b"), None);
    assert_eq!(clean("/%2e%2e%5ca"), None);
    assert_eq!(clean("/C:/a"), None);
    assert_eq!(clean("/c:a"), None);
    assert_eq!(clean("/./Z:\\a").as_deref(), Some("Z:a"));
    assert_eq!(clean("/foo/C:/bar/x").as_deref(), Some("C:bar/x"));
    assert_eq!(clean("/foo/C:b/bar").as_deref(), Some("C:b/bar"));
    assert_eq!(clean("/a/C:/b/d:/c").as_deref(), Some("d:c"));
    assert_eq!(clean("/a/C:").as_deref(), Some("C:"));
    assert_eq!(clean("/a/C:/../b"), None);
    assert_eq!(clean("/\\a"), None);
    assert_eq!(clean("/\\\\server\\share"), None);
    assert_eq!(clean("/1:/ab:c").as_deref(), Some("1:/ab:c"));
    assert_eq!(clean("/").as_deref(), Some(""));
}

#[test]
fn paths_below_a_root() {
    assert!(is_below(b"/srv", b"/srv", b'/'));
    assert!(is_below(b"/srv", b"/srv/a", b'/'));
    assert!(!is_below(b"/srv", b"/srva", b'/'));
    assert!(!is_below(b"/srv", b"/sr", b'/'));
    assert!(!is_below(b"/srv", b"/etc/srv/a", b'/'));
    assert!(is_below(b"/", b"/", b'/'));
    assert!(is_below(b"/", b"/a", b'/'));
    assert!(is_below(b"C:\\", b"C:\\a", b'\\'));
    assert!(!is_below(b"C:\\a", b"C:\\ab", b'\\'));
}

#[test]
fn escaped_texts_read_back() {
    let text = "a%2 ä/€%";
    let mut lower = String::new();
    let mut upper = String::new();
    let mut needed = String::new();
    for &byte in text.as_bytes() {
        lower += &format!("%{:02x}", byte);
        upper += &format!("%{:02X}", byte);
        if byte == b'%' || byte >= 128 {
            needed += &format!("%{:02X}", byte);
        } else {
            needed.push(byte as char);
        }
    }
    for written in [lower.as_str(), upper.as_str(), needed.as_str(), "a%252 ä/€%25"] {
        assert_eq!(percent_decode(written).as_deref(), Some(text));
    }
}

#[test]
fn percent_signs_are_decoded() {
    assert_eq!(percent_decode("a%20b").as_deref(), Some("a b"));
    assert_eq!(percent_decode("%C3%a4").as_deref(), Some("ä"));
    assert_eq!(percent_decode("ä").as_deref(), Some("ä"));
    assert_eq!(percent_decode("%ff"), None);
    assert_eq!(percent_decode("%"), None);
    assert_eq!(percent_decode("a%4"), None);
    assert_eq!(percent_decode("%41").as_deref(), Some("A"));
    assert_eq!(percent_decode("%2"), None);
    assert_eq!(percent_decode("%g0"), None);
    assert_eq!(percent_decode("%0g"), None);
    assert_eq!(percent_decode("").as_deref(), Some(""));
}

#[test]
fn hex_digits() {
    for byte in 0..=255_u8 {
        let expected = (byte as char).to_digit(16).map(|d| d as u8);
        assert_eq!(from_hex(byte), expected);
    }
}

#[test]
fn content_types() {
    assert_eq!(content_type("a/index.html"), "text/html; charset=utf-8");
    assert_eq!(content_type("x.htm"), "text/html; charset=utf-8");
    assert_eq!(content_type("x.css"), "text/css; charset=utf-8");
    assert_eq!(content_type("x.mjs"), "text/javascript; charset=utf-8");
    assert_eq!(content_type("x.js"), "text/javascript; charset=utf-8");
    assert_eq!(content_type("x.min.js.map"), "application/json; charset=utf-8");
    assert_eq!(content_type("x.json"), "application/json; charset=utf-8");
    assert_eq!(content_type("x.svg"), "image/svg+xml");
    assert_eq!(content_type("x.png"), "image/png");
    assert_eq!(content_type("x.jpeg"), "image/jpeg");
    assert_eq!(content_type("x.jpg"), "image/jpeg");
    assert_eq!(content_type("x.gif"), "image/gif");
    assert_eq!(content_type("x.webp"), "image/webp");
    assert_eq!(content_type("favicon.ico"), "image/x-icon");
    assert_eq!(content_type("x.wasm"), "application/wasm");
    assert_eq!(content_type("x.txt"), "text/plain; charset=utf-8");
    assert_eq!(content_type("x.pdf"), "application/pdf");
    assert_eq!(content_type("x.woff"), "font/woff");
    assert_eq!(content_type("x.woff2"), "font/woff2");
    assert_eq!(content_type("x.ttf"), "font/ttf");
    assert_eq!(content_type("x.otf"), "font/otf");
    assert_eq!(content_type("x.mp4"), "video/mp4");
    assert_eq!(content_type("x.webm"), "video/webm");
    assert_eq!(content_type("x.mp3"), "audio/mpeg");
    assert_eq!(content_type("x.wav"), "audio/wav");
    assert_eq!(content_type("x.HTML"), "application/octet-stream");
    assert_eq!(content_type("html"), "application/octet-stream");
    assert_eq!(content_type(".html"), "application/octet-stream");
    assert_eq!(content_type("a.html/b"), "application/octet-stream");
    assert_eq!(content_type("x."), "application/octet-stream");
}
