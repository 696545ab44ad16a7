//! A minimal HTTP/1.1 engine for serving static files: request parsing,
//! response serialisation, path resolution, and the state machines of one
//! connection and of the accept loop.

pub mod args;
pub mod client;
pub mod handler;
pub mod headers;
pub mod readback;
pub mod req;
pub mod resp;
pub mod server;
pub mod text;
