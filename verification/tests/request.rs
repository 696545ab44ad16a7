use mini_httpd::headers::Headers;
use mini_httpd::req::{
    parse_header_line, parse_next, parse_request, parse_request_line, Method, ParseError,
    Progress, Request, RequestParser,
};

fn headers_of(pairs: &[(&str, &str)]) -> Headers {
    let mut h = Headers::new();
    for (k, v) in pairs {
        h.insert(k.to_string(), v.to_string());
    }
    h
}

#[test]
fn no_headers() {
    // The input ends behind the request line, before any blank line.
    let req = parse_request("GET /foo HTTP/1.1\r\n");
    assert_eq!(req, Err(ParseError::UnexpectedEof));
}

#[test]
fn no_headers_then_blank_line() {
    let req = parse_request("GET /foo HTTP/1.1\r\n\r\n").unwrap();
    assert_eq!(
        req,
        Request { method: Method::Get, path: "/foo".to_string(), headers: Headers::new() }
    );
}

#[test]
fn test_parse_request() {
    let req = parse_request("GET /foo HTTP/1.1\r\nHost: localhost\r\n\r\n").unwrap();

    assert_eq!(
        req,
        Request {
            method: Method::Get,
            path: "/foo".to_string(),
            headers: headers_of(&[("Host", "localhost")]),
        }
    )
}

#[test]
fn request_line_without_version() {
    assert_eq!(parse_request_line("GET /a\r\n"), Ok((Method::Get, "/a".to_string())));
    assert_eq!(parse_request_line("  GET\t/a"), Ok((Method::Get, "/a".to_string())));
}

#[test]
fn request_line_errors() {
    assert_eq!(parse_request_line(""), Err(ParseError::MalformedRequestLine));
    assert_eq!(parse_request_line(" \r\n"), Err(ParseError::MalformedRequestLine));
    assert_eq!(parse_request_line("GET\r\n"), Err(ParseError::MalformedRequestLine));
    assert_eq!(parse_request_line("POST /a HTTP/1.1\r\n"), Err(ParseError::UnsupportedMethod));
    assert_eq!(parse_request_line("get /a\r\n"), Err(ParseError::UnsupportedMethod));
    // The method is judged before the path is missed.
    assert_eq!(parse_request_line("PUT\r\n"), Err(ParseError::UnsupportedMethod));
}

#[test]
fn method_from_token() {
    assert_eq!(Method::try_from("GET"), Ok(Method::Get));
    assert_eq!(Method::try_from("GETS"), Err(ParseError::UnsupportedMethod));
    assert_eq!(Method::try_from(""), Err(ParseError::UnsupportedMethod));
}

#[test]
fn header_line_splits_on_first_colon() {
    assert_eq!(
        parse_header_line("Host: localhost:8080\r\n"),
        Ok(("Host".to_string(), "localhost:8080".to_string()))
    );
    assert_eq!(parse_header_line("X:\r\n"), Ok(("X".to_string(), "".to_string())));
    assert_eq!(parse_header_line("X-Pad: \t a b \u{a0}\r\n"), Ok(("X-Pad".to_string(), "a b".to_string())));
    assert_eq!(parse_header_line("Name \r\n"), Err(ParseError::MalformedHeaderLine));
}

#[test]
fn header_names_are_kept_as_received() {
    assert_eq!(parse_header_line(" a b :v"), Ok((" a b ".to_string(), "v".to_string())));
}

#[test]
fn last_value_of_a_name_wins() {
    let req = parse_request("GET / HTTP/1.1\r\nA: 1\r\nB: 2\r\nA: 3\r\n\r\nrest").unwrap();
    assert_eq!(req.headers.len(), 2);
    assert_eq!(req.headers.get("A"), Some(&"3".to_string()));
    assert_eq!(req.headers.get("B"), Some(&"2".to_string()));
    assert_eq!(req.headers.get("a"), None);
    assert_eq!(req.headers, headers_of(&[("A", "3"), ("B", "2")]));
}

#[test]
fn bare_line_feeds_end_lines() {
    let req = parse_request("GET /x\nK: v\n\n").unwrap();
    assert_eq!(req.path, "/x");
    assert_eq!(req.headers.get("K"), Some(&"v".to_string()));
}

#[test]
fn malformed_header_fails_the_request() {
    assert_eq!(parse_request("GET / HTTP/1.1\r\nnocolon\r\n\r\n"), Err(ParseError::MalformedHeaderLine));
}

#[test]
fn input_that_ends_early_is_an_error() {
    assert_eq!(parse_request(""), Err(ParseError::MalformedRequestLine));
    assert_eq!(parse_request("GET /"), Err(ParseError::UnexpectedEof));
    assert_eq!(parse_request("GET / HTTP/1.1\r\nA: b\r\n"), Err(ParseError::UnexpectedEof));
    assert_eq!(parse_request("GET / HTTP/1.1\r\nA: b"), Err(ParseError::UnexpectedEof));
}

#[test]
fn unsupported_method_is_refused_at_the_request_line() {
    assert_eq!(
        parse_request("DELETE /x HTTP/1.1\r\nHost: x\r\n\r\nGET / HTTP/1.1\r\n\r\n"),
        Err(ParseError::UnsupportedMethod)
    );
    let mut p = RequestParser::new();
    assert_eq!(p.feed(Some("DELETE /x HTTP/1.1\r\n")), Progress::Failed(ParseError::UnsupportedMethod));
    // Nothing further is taken in.
    assert_eq!(p.feed(Some("GET / HTTP/1.1\r\n")), Progress::Failed(ParseError::UnsupportedMethod));
    assert_eq!(p.feed(None), Progress::Failed(ParseError::UnsupportedMethod));
}

#[test]
fn parser_takes_lines_as_they_arrive() {
    let mut p = RequestParser::new();
    assert_eq!(p.feed(Some("GET /a HTTP/1.1\r\n")), Progress::NeedLine);
    assert_eq!(p.feed(Some("Host: x\r\n")), Progress::NeedLine);
    let done = p.feed(Some("\r\n"));
    assert_eq!(
        done,
        Progress::Complete(Request {
            method: Method::Get,
            path: "/a".to_string(),
            headers: headers_of(&[("Host", "x")]),
        })
    );
    // The parser is ready for the next request.
    assert_eq!(p.feed(Some("GET /b\n")), Progress::NeedLine);
    assert_eq!(
        p.feed(Some("")),
        Progress::Complete(Request {
            method: Method::Get,
            path: "/b".to_string(),
            headers: Headers::new(),
        })
    );
}

#[test]
fn parser_reports_the_end_of_input() {
    let mut p = RequestParser::new();
    assert_eq!(p.feed(None), Progress::Failed(ParseError::MalformedRequestLine));
    let mut q = RequestParser::new();
    assert_eq!(q.feed(Some("GET /a\r\n")), Progress::NeedLine);
    assert_eq!(q.feed(None), Progress::Failed(ParseError::UnexpectedEof));
}

#[test]
fn headers_keep_the_order_of_first_insertion() {
    let mut h = Headers::new();
    h.insert("B".to_string(), "1".to_string());
    h.insert("A".to_string(), "2".to_string());
    h.insert("B".to_string(), "3".to_string());
    assert_eq!(h.len(), 2);
    assert_eq!(h.entry(0).map(|e| (e.name.as_str(), e.value.as_str())), Some(("B", "3")));
    assert_eq!(h.entry(1).map(|e| (e.name.as_str(), e.value.as_str())), Some(("A", "2")));
    assert!(h.entry(2).is_none());
    assert_eq!(h.clone(), h);
}

#[test]
fn values_are_trimmed_as_text_is() {
    for value in ["", " ", "a", " a", "a ", "\t a b \u{3000}", "\u{a0}x\u{2003}y\u{85}", " \r\n "] {
        let line = format!("K:{}\r\n", value);
        assert_eq!(parse_header_line(&line), Ok(("K".to_string(), value.trim().to_string())));
    }
}

#[test]
fn words_are_split_as_text_is() {
    for line in ["GET /a HTTP/1.1\r\n", "\u{a0}GET\u{2003}/b\u{3000}x", "GET\t\t/c\n", "GET /d"] {
        let mut words = line.split_whitespace();
        words.next();
        let path = words.next().unwrap().to_string();
        assert_eq!(parse_request_line(line), Ok((Method::Get, path)));
    }
}

#[test]
fn requests_in_a_row_are_taken_one_by_one() {
    let input = "GET /a HTTP/1.1\r\nHost: x\r\n\r\nGET /b HTTP/1.1\r\n\r\n";
    let (first, taken) = parse_next(input);
    assert_eq!(first.unwrap().path, "/a");
    assert_eq!(taken, 28);
    let rest: String = input.chars().skip(taken).collect();
    let (second, taken) = parse_next(&rest);
    assert_eq!(second.unwrap().path, "/b");
    assert_eq!(taken, rest.chars().count());
}

#[test]
fn a_refused_request_takes_only_the_line_in_error() {
    let input = "DELETE /x HTTP/1.1\r\nHost: x\r\n\r\nGET / HTTP/1.1\r\n\r\n";
    assert_eq!(parse_next(input), (Err(ParseError::UnsupportedMethod), 20));
    assert_eq!(parse_next("GET /\r\nA: b\r\nbad\r\nC: d\r\n\r\n"), (Err(ParseError::MalformedHeaderLine), 18));
    assert_eq!(parse_next("GET /\r\nA: b\r\n"), (Err(ParseError::UnexpectedEof), 13));
    assert_eq!(parse_next(""), (Err(ParseError::MalformedRequestLine), 0));
    assert_eq!(parse_next("\u{e9}\n\n"), (Err(ParseError::UnsupportedMethod), 2));
}

#[test]
fn headers_are_equal_as_mappings() {
    let ab = headers_of(&[("A", "1"), ("B", "2")]);
    let ba = headers_of(&[("B", "2"), ("A", "1")]);
    assert_eq!(ab, ba);
    assert_eq!(ab, headers_of(&[("A", "0"), ("B", "2"), ("A", "1")]));
    assert_ne!(ab, headers_of(&[("A", "1")]));
    assert_ne!(headers_of(&[("A", "1")]), ab);
    assert_ne!(ab, headers_of(&[("A", "1"), ("B", "3")]));
    assert_ne!(ab, headers_of(&[("A", "1"), ("b", "2")]));
    assert_eq!(Headers::new(), Headers::new());
    let left = parse_request("GET / HTTP/1.1\r\nA: 1\r\nB: 2\r\n\r\n").unwrap();
    let right = parse_request("GET / HTTP/1.1\r\nB: 2\r\nA: 1\r\n\r\n").unwrap();
    assert_eq!(left, right);
}
