use mini_httpd::client::{closes_connection, Action, CloseReason, ConnState, Connection};
use mini_httpd::handler::{FileLookup, StaticFileHandler};
use mini_httpd::req::{parse_request, ParseError};
use mini_httpd::server::{Accept, Server, ServerPhase};

fn request_of(a: Action) -> mini_httpd::req::Request {
    match a {
        Action::Dispatch(r) => r,
        other => panic!("no request: {:?}", other),
    }
}

#[test]
fn close_is_asked_for_by_the_exact_header() {
    let yes = parse_request("GET / HTTP/1.1\r\nConnection: close\r\n\r\n").unwrap();
    assert!(closes_connection(&yes));
    for text in [
        "GET / HTTP/1.1\r\n\r\n",
        "GET / HTTP/1.1\r\nConnection: keep-alive\r\n\r\n",
        "GET / HTTP/1.1\r\nConnection: Close\r\n\r\n",
        "GET / HTTP/1.1\r\nconnection: close\r\n\r\n",
        "GET / HTTP/1.1\r\nConnection: close\r\nConnection: keep-alive\r\n\r\n",
    ] {
        assert!(!closes_connection(&parse_request(text).unwrap()));
    }
}

#[test]
fn connection_closes_behind_the_response_when_asked() {
    let h = StaticFileHandler::with_root("root".to_string());
    let mut c = Connection::new();
    assert_eq!(c.state(), ConnState::AwaitingRequest);
    assert_eq!(c.next_request(Some("GET /index.html HTTP/1.1\r\n")), Action::ReadLine);
    assert_eq!(c.next_request(Some("Connection: close\r\n")), Action::ReadLine);
    let req = request_of(c.next_request(Some("\r\n")));
    assert_eq!(c.state(), ConnState::Dispatching);
    assert_eq!(h.resolve(&req.path), Some("root/index.html".to_string()));
    let resp = h.handle(req, FileLookup::Opened { len: 11 }).unwrap();
    assert_eq!(c.dispatched(true), Action::WriteResponse);
    assert_eq!(c.state(), ConnState::Writing);
    let mut out = Vec::new();
    assert_eq!(resp.write(&mut out), Some(("root/index.html".to_string(), 11)));
    assert_eq!(out, b"HTTP/1.1 200 OK\r\nContent-Length: 11\r\nContent-Type: text/html\r\n\r\n".to_vec());
    assert_eq!(c.written(true), Action::Close(CloseReason::Done));
    assert_eq!(c.state(), ConnState::Closed);
    // No further request is taken.
    assert_eq!(c.next_request(Some("GET / HTTP/1.1\r\n")), Action::Close(CloseReason::OutOfTurn));
}

#[test]
fn connection_persists_by_default() {
    let h = StaticFileHandler::with_root("root".to_string());
    let mut c = Connection::new();
    let mut out = Vec::new();
    for path in ["/a.html", "/b.css"] {
        let line = format!("GET {} HTTP/1.1\r\n", path);
        assert_eq!(c.next_request(Some(&line)), Action::ReadLine);
        assert_eq!(c.next_request(Some("Host: x\r\n")), Action::ReadLine);
        let req = request_of(c.next_request(Some("\r\n")));
        assert_eq!(req.path, path);
        let resp = h.handle(req, FileLookup::NotFile).unwrap();
        assert_eq!(c.dispatched(true), Action::WriteResponse);
        assert_eq!(resp.write(&mut out), None);
        assert_eq!(c.written(true), Action::ReadLine);
        assert_eq!(c.state(), ConnState::AwaitingRequest);
    }
    let text = String::from_utf8(out).unwrap();
    assert_eq!(text.matches("HTTP/1.1 404 Not Found\r\n").count(), 2);
    // The peer goes away between requests.
    assert_eq!(
        c.next_request(None),
        Action::Close(CloseReason::ParseFailed(ParseError::MalformedRequestLine))
    );
    assert_eq!(c.state(), ConnState::Closed);
}

#[test]
fn parse_failure_closes_without_a_response() {
    let mut c = Connection::new();
    assert_eq!(
        c.next_request(Some("POST / HTTP/1.1\r\n")),
        Action::Close(CloseReason::ParseFailed(ParseError::UnsupportedMethod))
    );
    assert_eq!(c.state(), ConnState::Closed);
    assert_eq!(c.dispatched(true), Action::Close(CloseReason::OutOfTurn));
    assert_eq!(c.written(true), Action::Close(CloseReason::OutOfTurn));
}

#[test]
fn input_that_ends_within_the_headers_closes() {
    let mut c = Connection::new();
    assert_eq!(c.next_request(Some("GET / HTTP/1.1\r\n")), Action::ReadLine);
    assert_eq!(c.next_request(None), Action::Close(CloseReason::ParseFailed(ParseError::UnexpectedEof)));
}

#[test]
fn handler_failure_closes_without_a_response() {
    let mut c = Connection::new();
    assert_eq!(c.next_request(Some("GET /a HTTP/1.1\r\n")), Action::ReadLine);
    request_of(c.next_request(Some("\r\n")));
    assert_eq!(c.dispatched(false), Action::Close(CloseReason::HandlerFailed));
    assert_eq!(c.state(), ConnState::Closed);
}

#[test]
fn write_failure_closes() {
    let mut c = Connection::new();
    assert_eq!(c.next_request(Some("GET /a HTTP/1.1\r\n")), Action::ReadLine);
    request_of(c.next_request(Some("\r\n")));
    assert_eq!(c.dispatched(true), Action::WriteResponse);
    assert_eq!(c.written(false), Action::Close(CloseReason::WriteFailed));
    assert_eq!(c.state(), ConnState::Closed);
}

#[test]
fn steps_out_of_turn_close() {
    let mut c = Connection::new();
    assert_eq!(c.written(true), Action::Close(CloseReason::OutOfTurn));
    assert_eq!(c.state(), ConnState::Closed);
    let mut d = Connection::new();
    assert_eq!(d.next_request(Some("GET /a\n")), Action::ReadLine);
    request_of(d.next_request(Some("\n")));
    // A new request is not taken while one is on its way.
    assert_eq!(d.next_request(Some("GET /b\n")), Action::Close(CloseReason::OutOfTurn));
}

#[test]
fn cancel_while_waiting_closes_at_once() {
    let mut c = Connection::new();
    assert!(c.cancel());
    assert_eq!(c.state(), ConnState::Closed);
    let mut d = Connection::new();
    assert_eq!(d.next_request(Some("GET /a HTTP/1.1\r\n")), Action::ReadLine);
    assert!(d.cancel());
    assert_eq!(d.state(), ConnState::Closed);
}

#[test]
fn cancel_lets_the_response_at_hand_finish() {
    let mut c = Connection::new();
    assert_eq!(c.next_request(Some("GET /a HTTP/1.1\r\n")), Action::ReadLine);
    request_of(c.next_request(Some("\r\n")));
    assert!(!c.cancel());
    assert_eq!(c.state(), ConnState::Dispatching);
    assert_eq!(c.dispatched(true), Action::WriteResponse);
    assert!(!c.cancel());
    assert_eq!(c.written(true), Action::Close(CloseReason::Cancelled));
    assert_eq!(c.state(), ConnState::Closed);
}

#[test]
fn server_spawns_while_running() {
    let mut s = Server::new();
    assert_eq!(s.phase(), ServerPhase::Running);
    assert_eq!(s.accepted(), Accept::Spawn);
    assert_eq!(s.accepted(), Accept::Spawn);
    assert_eq!(s.open(), 2);
    assert!(!s.finished());
    assert_eq!(s.open(), 1);
    assert_eq!(s.phase(), ServerPhase::Running);
}

#[test]
fn shutdown_waits_for_every_open_handler() {
    let mut s = Server::new();
    for _ in 0..3 {
        assert_eq!(s.accepted(), Accept::Spawn);
    }
    assert_eq!(s.shutdown(), 3);
    assert_eq!(s.phase(), ServerPhase::Draining);
    // New connections are refused from the signal on.
    assert_eq!(s.accepted(), Accept::Refuse);
    assert_eq!(s.open(), 3);
    assert!(!s.finished());
    assert!(!s.finished());
    assert_eq!(s.phase(), ServerPhase::Draining);
    assert!(s.finished());
    assert_eq!(s.phase(), ServerPhase::Stopped);
    assert_eq!(s.open(), 0);
    assert_eq!(s.accepted(), Accept::Refuse);
    assert_eq!(s.shutdown(), 0);
    assert_eq!(s.phase(), ServerPhase::Stopped);
}

#[test]
fn shutdown_of_an_idle_server_stops_it() {
    let mut s = Server::new();
    assert_eq!(s.shutdown(), 0);
    assert_eq!(s.phase(), ServerPhase::Stopped);
    assert!(s.finished());
}

#[test]
fn finished_without_open_handlers_changes_nothing() {
    let mut s = Server::new();
    assert!(!s.finished());
    assert_eq!(s.open(), 0);
    assert_eq!(s.phase(), ServerPhase::Running);
}
