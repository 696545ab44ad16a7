use mini_httpd::handler::{
    not_found_response, FileLookup, HandleError, StaticFileHandler, NOT_FOUND_PAGE,
};
use mini_httpd::req::parse_request;
use mini_httpd::resp::{Body, Response, Status};

fn handler() -> StaticFileHandler {
    StaticFileHandler::with_root("/srv/www".to_string())
}

#[test]
fn root_is_kept() {
    assert_eq!(handler().root(), "/srv/www");
}

#[test]
fn resolves_below_the_root() {
    let h = handler();
    assert_eq!(h.resolve("/index.html"), Some("/srv/www/index.html".to_string()));
    assert_eq!(h.resolve("/a/b/c.png"), Some("/srv/www/a/b/c.png".to_string()));
    assert_eq!(h.resolve("index.html"), Some("/srv/www/index.html".to_string()));
}

#[test]
fn neutral_segments_are_dropped() {
    let h = handler();
    assert_eq!(h.resolve("//a///b"), Some("/srv/www/a/b".to_string()));
    assert_eq!(h.resolve("/./a/./b"), Some("/srv/www/a/b".to_string()));
    assert_eq!(h.resolve("/a/x/../b"), Some("/srv/www/a/b".to_string()));
    assert_eq!(h.resolve("/a/.../b"), Some("/srv/www/a/.../b".to_string()));
    assert_eq!(h.resolve("//etc/passwd"), Some("/srv/www/etc/passwd".to_string()));
}

#[test]
fn paths_that_climb_out_resolve_to_nothing() {
    let h = handler();
    assert_eq!(h.resolve("/../etc/passwd"), None);
    assert_eq!(h.resolve("/.."), None);
    assert_eq!(h.resolve(".."), None);
    assert_eq!(h.resolve("/a/../../etc/passwd"), None);
    assert_eq!(h.resolve("/a/b/../../../x"), None);
    // Climbing out and coming back is refused too.
    assert_eq!(h.resolve("/../www/index.html"), None);
}

#[test]
fn the_root_itself_is_no_file() {
    let h = handler();
    assert_eq!(h.resolve("/"), None);
    assert_eq!(h.resolve(""), None);
    assert_eq!(h.resolve("/a/.."), None);
    assert_eq!(h.resolve("/./"), None);
}

#[test]
fn an_empty_root_is_the_working_directory() {
    let h = StaticFileHandler::with_root(String::new());
    assert_eq!(h.resolve("/a.txt"), Some("./a.txt".to_string()));
}

#[test]
fn escaping_paths_are_not_found_whatever_was_found() {
    let h = handler();
    let req = parse_request("GET /../secret HTTP/1.1\r\n\r\n").unwrap();
    let r = h.handle(req, FileLookup::Opened { len: 3 }).unwrap();
    assert_eq!(r, not_found_response());
    assert_eq!(r.status, Status::NotFound);
}

#[test]
fn open_failure_is_an_error() {
    let h = handler();
    let req = parse_request("GET /a.txt HTTP/1.1\r\n\r\n").unwrap();
    assert_eq!(h.handle(req, FileLookup::OpenFailed), Err(HandleError::FileOpen));
}

#[test]
fn not_found_page_is_served_as_html() {
    let r = not_found_response();
    assert_eq!(r.status, Status::NotFound);
    assert_eq!(r.headers.get("Content-Type"), Some(&"text/html".to_string()));
    assert_eq!(r.headers.get("Content-Length"), Some(&NOT_FOUND_PAGE.len().to_string()));
    assert_eq!(r.data, Body::InMemory(NOT_FOUND_PAGE.as_bytes().to_vec()));
}

#[test]
fn missing_file_in_an_empty_root() {
    let h = handler();
    let req = parse_request("GET /missing.html HTTP/1.1\r\nHost: x\r\n\r\n").unwrap();
    let r = h.handle(req, FileLookup::NotFile).unwrap();
    let mut out = Vec::new();
    assert_eq!(r.write(&mut out), None);
    let text = String::from_utf8(out).unwrap();
    assert!(text.starts_with("HTTP/1.1 404 Not Found\r\nContent-Type: text/html\r\n"));
    let body = text.split_once("\r\n\r\n").unwrap().1;
    assert_eq!(body, NOT_FOUND_PAGE);
}

#[test]
fn found_file_is_served_with_its_length_and_type() {
    let h = handler();
    let req = parse_request("GET /index.html HTTP/1.1\r\nConnection: close\r\n\r\n").unwrap();
    let r = h.handle(req, FileLookup::Opened { len: 11 }).unwrap();
    assert_eq!(r, Response::from_file("/srv/www/index.html", 11));
    assert_eq!(
        r.status_and_headers(),
        "HTTP/1.1 200 OK\r\nContent-Length: 11\r\nContent-Type: text/html\r\n\r\n"
    );
    let mut out = Vec::new();
    assert_eq!(r.write(&mut out), Some(("/srv/www/index.html".to_string(), 11)));
}

#[test]
fn paths_that_do_not_end_in_a_name_resolve_to_nothing() {
    let h = handler();
    assert_eq!(h.resolve("/a.html/"), None);
    assert_eq!(h.resolve("/a.html/."), None);
    assert_eq!(h.resolve("/a.html//"), None);
    assert_eq!(h.resolve("/a/b/.."), None);
    assert_eq!(h.resolve("//a///b/"), None);
    assert_eq!(h.resolve("/a/"), None);
    assert_eq!(h.resolve("/a/./b.html"), Some("/srv/www/a/b.html".to_string()));
}

#[test]
fn a_path_behind_a_file_name_is_not_found() {
    let h = handler();
    let req = parse_request("GET /a.html/ HTTP/1.1\r\n\r\n").unwrap();
    let r = h.handle(req, FileLookup::Opened { len: 3 }).unwrap();
    assert_eq!(r.status, Status::NotFound);
}
