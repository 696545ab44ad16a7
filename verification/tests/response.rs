use mini_httpd::args::Args;
use mini_httpd::headers::Headers;
use mini_httpd::resp::{mime_type, Body, Response, Status};
use mini_httpd::text::{is_space, to_decimal};

fn pairs(h: &Headers) -> Vec<(String, String)> {
    let mut v = Vec::new();
    let mut i = 0;
    while let Some(e) = h.entry(i) {
        v.push((e.name.clone(), e.value.clone()));
        i += 1;
    }
    v
}

fn pair(a: &str, b: &str) -> (String, String) {
    (a.to_string(), b.to_string())
}

#[test]
fn status_text() {
    assert_eq!(Status::OK.to_string(), "200 OK");
    assert_eq!(Status::NotFound.to_string(), "404 Not Found");
    assert_eq!(Status::OK.code(), 200);
    assert_eq!(Status::NotFound.code(), 404);
    assert_eq!(Status::OK.reason(), "OK");
    assert_eq!(Status::NotFound.reason(), "Not Found");
}

#[test]
fn fixed_content_has_type_and_length() {
    let r = Response::from_fixed_content(Status::OK, b"hello".to_vec(), "text/plain");
    assert_eq!(r.status, Status::OK);
    assert_eq!(pairs(&r.headers), vec![pair("Content-Type", "text/plain"), pair("Content-Length", "5")]);
    assert_eq!(r.data, Body::InMemory(b"hello".to_vec()));
}

#[test]
fn head_is_status_line_fields_blank_line() {
    let r = Response::from_fixed_content(Status::OK, b"hello".to_vec(), "text/plain");
    assert_eq!(
        r.status_and_headers(),
        "HTTP/1.1 200 OK\r\nContent-Type: text/plain\r\nContent-Length: 5\r\n\r\n"
    );
}

#[test]
fn head_without_fields() {
    let r = Response { status: Status::NotFound, headers: Headers::new(), data: Body::InMemory(Vec::new()) };
    assert_eq!(r.status_and_headers(), "HTTP/1.1 404 Not Found\r\n\r\n");
}

#[test]
fn html_length_counts_bytes() {
    let r = Response::from_html(Status::NotFound, "h\u{e9}llo");
    assert_eq!(r.headers.get("Content-Length"), Some(&"6".to_string()));
    assert_eq!(r.headers.get("Content-Type"), Some(&"text/html".to_string()));
    assert_eq!(r.data, Body::InMemory("h\u{e9}llo".as_bytes().to_vec()));
}

#[test]
fn fixed_content_round_trips_through_a_buffer() {
    let content: Vec<u8> = vec![0, 159, 146, 150, b'\r', b'\n', b'\r', b'\n', 255];
    let r = Response::from_fixed_content(Status::OK, content.clone(), "application/x-thing; q=1");
    let mut out = vec![b'x'];
    let rest = r.write(&mut out);
    assert_eq!(rest, None);
    assert_eq!(out[0], b'x');
    let wire = &out[1..];
    let end = wire.windows(4).position(|w| w == b"\r\n\r\n").unwrap() + 4;
    let head = std::str::from_utf8(&wire[..end]).unwrap();
    let mut lines = head.split("\r\n");
    assert_eq!(lines.next(), Some("HTTP/1.1 200 OK"));
    assert_eq!(lines.next(), Some("Content-Type: application/x-thing; q=1"));
    assert_eq!(lines.next(), Some("Content-Length: 9"));
    assert_eq!(lines.next(), Some(""));
    assert_eq!(&wire[end..], &content[..]);
}

#[test]
fn file_response_reports_the_length_it_is_given() {
    let r = Response::from_file("site/index.html", 11);
    assert_eq!(r.status, Status::OK);
    assert_eq!(pairs(&r.headers), vec![pair("Content-Length", "11"), pair("Content-Type", "text/html")]);
    assert_eq!(r.data, Body::File { path: "site/index.html".to_string(), len: 11 });
    let big = Response::from_file("a.bin", u64::MAX);
    assert_eq!(big.headers.get("Content-Length"), Some(&"18446744073709551615".to_string()));
}

#[test]
fn file_body_is_left_to_the_caller() {
    let r = Response::from_file("site/a.css", 3);
    let mut out = Vec::new();
    let rest = r.write(&mut out);
    assert_eq!(rest, Some(("site/a.css".to_string(), 3)));
    assert_eq!(out, b"HTTP/1.1 200 OK\r\nContent-Length: 3\r\nContent-Type: text/css\r\n\r\n".to_vec());
}

#[test]
fn mime_types_by_extension() {
    assert_eq!(mime_type("index.html"), "text/html");
    assert_eq!(mime_type("a/b/style.css"), "text/css");
    assert_eq!(mime_type("app.js"), "text/javascript");
    assert_eq!(mime_type("p.png"), "image/png");
    assert_eq!(mime_type("p.jpg"), "image/jpeg");
    assert_eq!(mime_type("p.gif"), "image/gif");
    assert_eq!(mime_type("archive.tar.gz"), "application/octet-stream");
    assert_eq!(mime_type("x.min.js"), "text/javascript");
}

#[test]
fn mime_type_defaults() {
    assert_eq!(mime_type(""), "application/octet-stream");
    assert_eq!(mime_type("README"), "application/octet-stream");
    assert_eq!(mime_type(".html"), "application/octet-stream");
    assert_eq!(mime_type("dir/.html"), "application/octet-stream");
    assert_eq!(mime_type("dir.html/file"), "application/octet-stream");
    assert_eq!(mime_type("file."), "application/octet-stream");
    assert_eq!(mime_type("INDEX.HTML"), "application/octet-stream");
    assert_eq!(mime_type(".hidden.html"), "text/html");
}

#[test]
fn decimal_numbers() {
    assert_eq!(to_decimal(0), "0");
    assert_eq!(to_decimal(7), "7");
    assert_eq!(to_decimal(10), "10");
    assert_eq!(to_decimal(1234567890), "1234567890");
    assert_eq!(to_decimal(u64::MAX), u64::MAX.to_string());
}

#[test]
fn whitespace_is_unicode_white_space() {
    for c in ['\t', '\n', '\u{b}', '\u{c}', '\r', ' ', '\u{85}', '\u{a0}', '\u{1680}', '\u{2000}', '\u{200a}', '\u{2028}', '\u{2029}', '\u{202f}', '\u{205f}', '\u{3000}'] {
        assert!(is_space(c));
    }
    for c in ['a', '0', '\u{8}', '\u{e}', '\u{200b}', '\u{feff}', ':', '/'] {
        assert!(!is_space(c));
    }
    let mut c = 0u32;
    while c <= 0x10ffff {
        if let Some(ch) = char::from_u32(c) {
            assert_eq!(is_space(ch), ch.is_whitespace());
        }
        c += 1;
    }
}

#[test]
fn default_settings() {
    let a = Args::default();
    assert_eq!(a.port, 8080);
    assert_eq!(a.root, None);
    assert_eq!(a.address(), "0.0.0.0:8080");
    assert_eq!(Args { port: 0, root: Some("x".to_string()) }.address(), "0.0.0.0:0");
    assert_eq!(Args { port: 65535, root: None }.address(), "0.0.0.0:65535");
}

#[test]
fn separators_and_dots_at_the_end_do_not_hide_the_file_name() {
    assert_eq!(mime_type("a.html/"), "text/html");
    assert_eq!(mime_type("a.html/."), "text/html");
    assert_eq!(mime_type("a.html//./"), "text/html");
    assert_eq!(mime_type("a.html/.."), "application/octet-stream");
    assert_eq!(mime_type("x/a.css/./"), "text/css");
    assert_eq!(mime_type("./a.png"), "image/png");
    assert_eq!(mime_type(".."), "application/octet-stream");
    assert_eq!(mime_type("."), "application/octet-stream");
    assert_eq!(mime_type("/"), "application/octet-stream");
    assert_eq!(mime_type("a.gif/../"), "application/octet-stream");
    assert_eq!(mime_type("..gif"), "image/gif");
    assert_eq!(mime_type("a.html.png"), "image/png");
}

fn by_extension(path: &str) -> &'static str {
    match std::path::Path::new(path).extension().and_then(|e| e.to_str()) {
        Some("html") => "text/html",
        Some("css") => "text/css",
        Some("js") => "text/javascript",
        Some("png") => "image/png",
        Some("jpg") => "image/jpeg",
        Some("gif") => "image/gif",
        _ => "application/octet-stream",
    }
}

#[test]
fn file_names_are_taken_as_paths_take_them() {
    let pieces = ["a", ".", "/", "js", ".js", "..", "j"];
    let mut paths = vec![String::new()];
    let mut round = 0;
    while round < 5 {
        let mut next = Vec::new();
        for p in &paths {
            for piece in pieces {
                next.push(format!("{}{}", p, piece));
            }
        }
        for p in &next {
            assert_eq!(mime_type(p), by_extension(p), "{:?}", p);
        }
        paths = next;
        round += 1;
    }
}
