//! The host role's state: the directory of connected clients. The TCP
//! listener, the accept loop and the per-connection sockets live outside;
//! they mutate this state through the session directory's operations and
//! the per-connection step function.

use vstd::prelude::*;

verus! {

use crate::relay::{DirEntryV, SessionDirectory};

/// One host session's state. The directory is shared with every
/// per-connection handler under a single lock outside.
pub struct Host {
    pub clients: SessionDirectory,
}

impl Host {
    pub fn new() -> (h: Host)
        ensures
            h.clients.wf(),
            h.clients@ == Seq::<DirEntryV>::empty(),
    {
        Host { clients: SessionDirectory::new() }
    }
}

} // verus!
