//! One connection: the state machine that takes requests in, has them
//! dispatched, has the responses written, and decides when the connection
//! ends.
//!
//! The connection does no input or output. Its caller reads lines, resolves
//! requests and writes responses, and tells the connection how each step
//! went; the connection answers with the step to take next.
//!
//! A connection persists unless the request says otherwise: it is closed
//! behind a response only where the request carries the header field
//! `Connection` with the value `close`, both exactly as written here.

use crate::headers::lookup;
use crate::req::{
    line_text, ParseError, ParserState, Progress, ProgressView, Request, RequestParser,
    RequestView,
};
use vstd::prelude::*;

verus! {

/// Where a connection stands.
#[derive(Debug, Copy, Clone, PartialEq, Eq, Hash, Structural)]
pub enum ConnState {
    /// A request is being read.
    AwaitingRequest,
    /// A request is with the handler.
    Dispatching,
    /// A response is being written.
    Writing,
    /// The connection has ended.
    Closed,
}

/// Why a connection ended.
#[derive(Debug, Copy, Clone, PartialEq, Eq, Hash, Structural)]
pub enum CloseReason {
    /// The request could not be parsed. No response is sent.
    ParseFailed(ParseError),
    /// The handler failed. No response is sent.
    HandlerFailed,
    /// The response could not be written.
    WriteFailed,
    /// The server is shutting down.
    Cancelled,
    /// The request asked for the connection to be closed behind its response.
    Done,
    /// A step was reported that the connection was not waiting for.
    OutOfTurn,
}

/// The step that the caller takes next.
#[derive(Debug, Clone, PartialEq, Eq)]
pub enum Action {
    /// Read a line and hand it to `next_request`.
    ReadLine,
    /// Have the request handled and report with `dispatched`.
    Dispatch(Request),
    /// Write the response, flush, and report with `written`.
    WriteResponse,
    /// Close the connection.
    Close(CloseReason),
}

/// The model of an `Action`.
pub enum ActionView {
    ReadLine,
    Dispatch(RequestView),
    WriteResponse,
    Close(CloseReason),
}

impl View for Action {
    type V = ActionView;

    open spec fn view(&self) -> ActionView {
        match *self {
            Action::ReadLine => ActionView::ReadLine,
            Action::Dispatch(r) => ActionView::Dispatch(r@),
            Action::WriteResponse => ActionView::WriteResponse,
            Action::Close(reason) => ActionView::Close(reason),
        }
    }
}

/// The model of a connection.
pub struct ConnectionView {
    pub state: ConnState,
    /// The request that is being read.
    pub parser: ParserState,
    /// Whether the connection ends behind the response to the request at
    /// hand.
    pub close_after: bool,
    /// Whether a shutdown was seen while the request at hand was on its way.
    pub cancelled: bool,
}

/// Whether `request` asks for the connection to be closed behind its
/// response.
pub open spec fn wants_close(request: RequestView) -> bool {
    lookup(request.headers, "Connection"@) == Some("close"@)
}

/// `c`, closed.
pub open spec fn closed(c: ConnectionView) -> ConnectionView {
    ConnectionView {
        state: ConnState::Closed,
        parser: c.parser,
        close_after: c.close_after,
        cancelled: c.cancelled,
    }
}

/// A line of input arrives, or the input ends.
pub open spec fn on_line(c: ConnectionView, line: Option<Seq<char>>) -> (
    ConnectionView,
    ActionView,
) {
    if c.state != ConnState::AwaitingRequest {
        (closed(c), ActionView::Close(CloseReason::OutOfTurn))
    } else {
        let (parser, progress) = crate::req::step(c.parser, line);
        match progress {
            ProgressView::NeedLine => (
                ConnectionView {
                    state: ConnState::AwaitingRequest,
                    parser,
                    close_after: c.close_after,
                    cancelled: c.cancelled,
                },
                ActionView::ReadLine,
            ),
            ProgressView::Complete(request) => (
                ConnectionView {
                    state: ConnState::Dispatching,
                    parser,
                    close_after: wants_close(request),
                    cancelled: c.cancelled,
                },
                ActionView::Dispatch(request),
            ),
            ProgressView::Failed(e) => (
                ConnectionView {
                    state: ConnState::Closed,
                    parser,
                    close_after: c.close_after,
                    cancelled: c.cancelled,
                },
                ActionView::Close(CloseReason::ParseFailed(e)),
            ),
        }
    }
}

/// The handler is done: with a response (`ok`), or with a failure.
pub open spec fn on_dispatched(c: ConnectionView, ok: bool) -> (ConnectionView, ActionView) {
    if c.state != ConnState::Dispatching {
        (closed(c), ActionView::Close(CloseReason::OutOfTurn))
    } else if ok {
        (
            ConnectionView {
                state: ConnState::Writing,
                parser: c.parser,
                close_after: c.close_after,
                cancelled: c.cancelled,
            },
            ActionView::WriteResponse,
        )
    } else {
        (closed(c), ActionView::Close(CloseReason::HandlerFailed))
    }
}

/// The response is written and flushed (`ok`), or writing failed.
pub open spec fn on_written(c: ConnectionView, ok: bool) -> (ConnectionView, ActionView) {
    if c.state != ConnState::Writing {
        (closed(c), ActionView::Close(CloseReason::OutOfTurn))
    } else if !ok {
        (closed(c), ActionView::Close(CloseReason::WriteFailed))
    } else if c.close_after {
        (closed(c), ActionView::Close(CloseReason::Done))
    } else if c.cancelled {
        (closed(c), ActionView::Close(CloseReason::Cancelled))
    } else {
        (
            ConnectionView {
                state: ConnState::AwaitingRequest,
                parser: c.parser,
                close_after: c.close_after,
                cancelled: c.cancelled,
            },
            ActionView::ReadLine,
        )
    }
}

/// The server shuts down. A connection that awaits a request closes at once;
/// one that has a request on its way finishes the response first. The result
/// says whether the connection is closed now.
pub open spec fn on_cancel(c: ConnectionView) -> (ConnectionView, bool) {
    match c.state {
        ConnState::AwaitingRequest | ConnState::Closed => (closed(c), true),
        ConnState::Dispatching | ConnState::Writing => (
            ConnectionView {
                state: c.state,
                parser: c.parser,
                close_after: c.close_after,
                cancelled: true,
            },
            false,
        ),
    }
}

/// A connection as it is accepted.
pub open spec fn fresh() -> ConnectionView {
    ConnectionView {
        state: ConnState::AwaitingRequest,
        parser: ParserState::Start,
        close_after: false,
        cancelled: false,
    }
}

/// Whether `request` asks for the connection to be closed behind its
/// response.
pub fn closes_connection(request: &Request) -> (r: bool)
    ensures
        r == wants_close(request@),
{
    match request.headers.get("Connection") {
        None => false,
        Some(value) => {
            let close: String = "close".to_owned();
            *value == close
        },
    }
}

/// The protocol state of one connection.
#[derive(Debug)]
pub struct Connection {
    state: ConnState,
    parser: RequestParser,
    close_after: bool,
    cancelled: bool,
}

impl View for Connection {
    type V = ConnectionView;

    closed spec fn view(&self) -> ConnectionView {
        ConnectionView {
            state: self.state,
            parser: self.parser@,
            close_after: self.close_after,
            cancelled: self.cancelled,
        }
    }
}

impl Connection {
    /// A connection as it is accepted: it awaits its first request.
    pub fn new() -> (c: Connection)
        ensures
            c@ == fresh(),
    {
        Connection {
            state: ConnState::AwaitingRequest,
            parser: RequestParser::new(),
            close_after: false,
            cancelled: false,
        }
    }

    /// Where the connection stands.
    pub fn state(&self) -> (s: ConnState)
        ensures
            s == self@.state,
    {
        self.state
    }

    fn close(&mut self, reason: CloseReason) -> (a: Action)
        ensures
            final(self)@ == closed(old(self)@),
            a@ == ActionView::Close(reason),
    {
        self.state = ConnState::Closed;
        Action::Close(reason)
    }

    /// Takes in the next line of the request that is being read; `None` where
    /// the input has ended.
    pub fn next_request(&mut self, line: Option<&str>) -> (a: Action)
        ensures
            (final(self)@, a@) == on_line(old(self)@, line_text(line)),
    {
        if self.state != ConnState::AwaitingRequest {
            return self.close(CloseReason::OutOfTurn);
        }
        match self.parser.feed(line) {
            Progress::NeedLine => Action::ReadLine,
            Progress::Complete(request) => {
                self.close_after = closes_connection(&request);
                self.state = ConnState::Dispatching;
                Action::Dispatch(request)
            },
            Progress::Failed(e) => {
                self.state = ConnState::Closed;
                Action::Close(CloseReason::ParseFailed(e))
            },
        }
    }

    /// The handler is done with the request: with a response (`ok`), or with
    /// a failure.
    pub fn dispatched(&mut self, ok: bool) -> (a: Action)
        ensures
            (final(self)@, a@) == on_dispatched(old(self)@, ok),
    {
        if self.state != ConnState::Dispatching {
            self.close(CloseReason::OutOfTurn)
        } else if ok {
            self.state = ConnState::Writing;
            Action::WriteResponse
        } else {
            self.close(CloseReason::HandlerFailed)
        }
    }

    /// The response is written and flushed (`ok`), or writing failed.
    pub fn written(&mut self, ok: bool) -> (a: Action)
        ensures
            (final(self)@, a@) == on_written(old(self)@, ok),
    {
        if self.state != ConnState::Writing {
            self.close(CloseReason::OutOfTurn)
        } else if !ok {
            self.close(CloseReason::WriteFailed)
        } else if self.close_after {
            self.close(CloseReason::Done)
        } else if self.cancelled {
            self.close(CloseReason::Cancelled)
        } else {
            self.state = ConnState::AwaitingRequest;
            Action::ReadLine
        }
    }

    /// The server shuts down. The result says whether the connection is
    /// closed now; where it is not, it closes behind the response at hand.
    pub fn cancel(&mut self) -> (now: bool)
        ensures
            (final(self)@, now) == on_cancel(old(self)@),
    {
        match self.state {
            ConnState::AwaitingRequest | ConnState::Closed => {
                self.state = ConnState::Closed;
                true
            },
            ConnState::Dispatching | ConnState::Writing => {
                self.cancelled = true;
                false
            },
        }
    }
}

/// What a connection is told of.
pub enum Event {
    /// A line of input arrived, or the input ended.
    Line(Option<Seq<char>>),
    /// The handler is done, with or without a response.
    Dispatched(bool),
    /// The response is written, or writing failed.
    Written(bool),
    /// The server shuts down.
    Cancel,
}

/// The connection after `event`.
pub open spec fn after(c: ConnectionView, event: Event) -> ConnectionView {
    match event {
        Event::Line(line) => on_line(c, line).0,
        Event::Dispatched(ok) => on_dispatched(c, ok).0,
        Event::Written(ok) => on_written(c, ok).0,
        Event::Cancel => on_cancel(c).0,
    }
}

/// The connection after `events`, in their order.
pub open spec fn after_all(c: ConnectionView, events: Seq<Event>) -> ConnectionView
    decreases events.len(),
{
    if events.len() == 0 {
        c
    } else {
        after(after_all(c, events.drop_last()), events.last())
    }
}

/// Whether `event` makes the connection hand out a request.
pub open spec fn hands_out(c: ConnectionView, event: Event) -> bool {
    event matches Event::Line(line) && on_line(c, line).1 is Dispatch
}

/// Whether `event` makes the connection ask for a response to be written.
pub open spec fn asks_to_write(c: ConnectionView, event: Event) -> bool {
    event matches Event::Dispatched(ok) && on_dispatched(c, ok).1 is WriteResponse
}

/// Whether `event` reports the response at hand as written.
pub open spec fn completes(c: ConnectionView, event: Event) -> bool {
    event matches Event::Written(ok) && ok && c.state == ConnState::Writing
}

/// How often `pick` holds of an event of `events` and the connection that
/// the event comes to, starting from `c`.
pub open spec fn count(
    c: ConnectionView,
    events: Seq<Event>,
    pick: spec_fn(ConnectionView, Event) -> bool,
) -> nat
    decreases events.len(),
{
    if events.len() == 0 {
        0
    } else {
        count(c, events.drop_last(), pick) + if pick(
            after_all(c, events.drop_last()),
            events.last(),
        ) {
            1nat
        } else {
            0nat
        }
    }
}

/// Whatever a connection is told from its start on, it asks for no more
/// responses to be written than it has handed out requests, and it hands out
/// a request only when the response to the one before is written.
pub proof fn lemma_one_response_per_request(events: Seq<Event>)
    ensures
        ({
            let requests: nat = count(fresh(), events, |c: ConnectionView, e: Event| hands_out(c, e));
            let responses: nat = count(
                fresh(),
                events,
                |c: ConnectionView, e: Event| asks_to_write(c, e),
            );
            let completed: nat = count(
                fresh(),
                events,
                |c: ConnectionView, e: Event| completes(c, e),
            );
            &&& responses <= requests <= completed + 1
            &&& match after_all(fresh(), events).state {
                ConnState::AwaitingRequest => requests == responses && responses == completed,
                ConnState::Dispatching => requests == responses + 1 && responses == completed,
                ConnState::Writing => requests == responses && responses == completed + 1,
                ConnState::Closed => true,
            }
        }),
    decreases events.len(),
{
    if events.len() > 0 {
        lemma_one_response_per_request(events.drop_last());
    }
}

} // verus!
