//! The settings a server is started with.

use crate::text::{decimal, push_decimal};
use vstd::prelude::*;
use vstd::string::StringExecFns;

verus! {

/// The settings a server is started with.
#[derive(Debug, Clone, PartialEq, Eq)]
pub struct Args {
    /// The port to listen on.
    pub port: u16,
    /// The directory to serve; the working directory where there is none.
    pub root: Option<String>,
}

impl Default for Args {
    /// Port 8080, and no directory named.
    fn default() -> (a: Args)
        ensures
            a.port == 8080,
            a.root is None,
    {
        Args { port: 8080, root: None }
    }
}

impl Args {
    /// The address to listen on: every interface, at the port.
    pub fn address(&self) -> (r: String)
        ensures
            r@ == "0.0.0.0:"@ + decimal(self.port as nat),
    {
        let mut r = String::new();
        r.append("0.0.0.0:");
        push_decimal(&mut r, self.port as u64);
        r
    }
}

} // verus!
