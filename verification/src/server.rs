//! The accept loop and its shutdown: which connections are taken, and when
//! the server may stop.
//!
//! The server does no input or output. Its caller accepts connections, runs
//! their handlers and watches for the shutdown signal, and tells the server of
//! each event; the server answers with what to do.

use vstd::prelude::*;

verus! {

/// Where a server stands. It moves forward only: from running to draining to
/// stopped.
#[derive(Debug, Copy, Clone, PartialEq, Eq, Hash, Structural)]
pub enum ServerPhase {
    /// Connections are accepted.
    Running,
    /// Shutdown was signalled: no connection is accepted, and the handlers
    /// that run are waited for.
    Draining,
    /// Shutdown was signalled and no handler runs.
    Stopped,
}

/// What becomes of an accepted connection.
#[derive(Debug, Copy, Clone, PartialEq, Eq, Hash, Structural)]
pub enum Accept {
    /// A handler is started for it, and recorded.
    Spawn,
    /// It is dropped.
    Refuse,
}

/// The model of a server.
pub struct ServerView {
    pub phase: ServerPhase,
    /// The handlers that were started and have not been reported finished.
    pub open: nat,
}

/// The most handlers that a server records.
pub open spec fn capacity() -> nat {
    usize::MAX as nat
}

/// A connection was accepted.
pub open spec fn on_accept(s: ServerView) -> (ServerView, Accept) {
    if s.phase == ServerPhase::Running && s.open < capacity() {
        (ServerView { phase: s.phase, open: s.open + 1 }, Accept::Spawn)
    } else {
        (s, Accept::Refuse)
    }
}

/// The shutdown signal came.
pub open spec fn on_shutdown(s: ServerView) -> ServerView {
    match s.phase {
        ServerPhase::Running => if s.open == 0 {
            ServerView { phase: ServerPhase::Stopped, open: s.open }
        } else {
            ServerView { phase: ServerPhase::Draining, open: s.open }
        },
        _ => s,
    }
}

/// A handler finished.
pub open spec fn on_finished(s: ServerView) -> ServerView {
    let open: nat = if s.open > 0 {
        (s.open - 1) as nat
    } else {
        0
    };
    if s.phase == ServerPhase::Draining && open == 0 {
        ServerView { phase: ServerPhase::Stopped, open }
    } else {
        ServerView { phase: s.phase, open }
    }
}

/// What a server is told of.
pub enum ServerEvent {
    /// A connection was accepted.
    Accepted,
    /// An attempt to accept a connection failed.
    AcceptFailed,
    /// The shutdown signal came.
    Shutdown,
    /// A handler finished.
    Finished,
}

/// The server after `event`.
pub open spec fn after(s: ServerView, event: ServerEvent) -> ServerView {
    match event {
        ServerEvent::Accepted => on_accept(s).0,
        ServerEvent::AcceptFailed => s,
        ServerEvent::Shutdown => on_shutdown(s),
        ServerEvent::Finished => on_finished(s),
    }
}

/// The server after `events`, in their order.
pub open spec fn after_all(s: ServerView, events: Seq<ServerEvent>) -> ServerView
    decreases events.len(),
{
    if events.len() == 0 {
        s
    } else {
        after(after_all(s, events.drop_last()), events.last())
    }
}

/// How many of `events` report a finished handler.
pub open spec fn finished_among(events: Seq<ServerEvent>) -> nat
    decreases events.len(),
{
    if events.len() == 0 {
        0
    } else {
        finished_among(events.drop_last()) + if events.last() is Finished {
            1nat
        } else {
            0nat
        }
    }
}

/// After the shutdown signal no connection is taken any more, and the server
/// stops when the last handler that was running has finished, not before:
/// with `n` handlers running at the signal, whatever happens then, the server
/// starts no handler, and it has stopped exactly when `n` handlers have been
/// reported finished.
pub proof fn lemma_shutdown_drains(s: ServerView, events: Seq<ServerEvent>)
    requires
        s.phase == ServerPhase::Running,
    ensures
        ({
            let t: ServerView = after_all(on_shutdown(s), events);
            &&& on_accept(t).1 == Accept::Refuse
            &&& t.phase != ServerPhase::Running
            &&& t.phase == ServerPhase::Stopped <==> finished_among(events) >= s.open
            &&& t.open == if finished_among(events) >= s.open {
                0
            } else {
                s.open - finished_among(events)
            }
        }),
    decreases events.len(),
{
    if events.len() > 0 {
        lemma_shutdown_drains(s, events.drop_last());
    }
}

/// The accept loop's view of the connections it has taken.
#[derive(Debug)]
pub struct Server {
    phase: ServerPhase,
    open: usize,
}

impl View for Server {
    type V = ServerView;

    closed spec fn view(&self) -> ServerView {
        ServerView { phase: self.phase, open: self.open as nat }
    }
}

impl Server {
    /// A running server with no handler started.
    pub fn new() -> (s: Server)
        ensures
            s@ == (ServerView { phase: ServerPhase::Running, open: 0 }),
    {
        Server { phase: ServerPhase::Running, open: 0 }
    }

    /// Where the server stands.
    pub fn phase(&self) -> (p: ServerPhase)
        ensures
            p == self@.phase,
    {
        self.phase
    }

    /// The handlers that were started and have not been reported finished.
    pub fn open(&self) -> (n: usize)
        ensures
            n == self@.open,
    {
        self.open
    }

    /// A connection was accepted: says whether a handler is started for it.
    pub fn accepted(&mut self) -> (a: Accept)
        ensures
            (final(self)@, a) == on_accept(old(self)@),
    {
        if self.phase == ServerPhase::Running && self.open < usize::MAX {
            self.open = self.open + 1;
            Accept::Spawn
        } else {
            Accept::Refuse
        }
    }

    /// The shutdown signal came: says how many handlers are to be cancelled
    /// and waited for.
    pub fn shutdown(&mut self) -> (waiting: usize)
        ensures
            final(self)@ == on_shutdown(old(self)@),
            waiting == old(self)@.open,
    {
        if self.phase == ServerPhase::Running {
            if self.open == 0 {
                self.phase = ServerPhase::Stopped;
            } else {
                self.phase = ServerPhase::Draining;
            }
        }
        self.open
    }

    /// A handler finished: says whether the server has stopped.
    pub fn finished(&mut self) -> (stopped: bool)
        ensures
            final(self)@ == on_finished(old(self)@),
            stopped == (final(self)@.phase == ServerPhase::Stopped),
    {
        if self.open > 0 {
            self.open = self.open - 1;
        }
        if self.phase == ServerPhase::Draining && self.open == 0 {
            self.phase = ServerPhase::Stopped;
        }
        self.phase == ServerPhase::Stopped
    }
}

} // verus!
