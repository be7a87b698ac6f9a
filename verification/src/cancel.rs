//! Cancellation signal: the one-shot shutdown flag every long-running
//! session task observes, together with the decision logic of the
//! standard-input quit watcher that fires it.

use vstd::prelude::*;

verus! {

/// A single boolean flip, monotone false -> true, never reset. One writer
/// fires it; any number of observers poll it. Created per session
/// (announce, discover, serve or connect) and discarded with that session.
pub struct CancellationSignal {
    fired: bool,
}

impl CancellationSignal {
    /// True once the signal has been sent.
    pub closed spec fn is_set(self) -> bool {
        self.fired
    }

    pub fn new() -> (s: CancellationSignal)
        ensures
            !s.is_set(),
    {
        CancellationSignal { fired: false }
    }

    /// Fire the signal. Calling it again changes nothing: the flag is
    /// already and stays set.
    pub fn send(&mut self)
        ensures
            final(self).is_set(),
    {
        self.fired = true;
    }

    pub fn is_fired(&self) -> (r: bool)
        ensures
            r == self.is_set(),
    {
        self.fired
    }
}

/// The byte `q`, the first half of the quit sequence on standard input.
pub const QUIT_BYTE: u8 = 113;

/// The newline byte that ends the quit sequence.
pub const NEWLINE_BYTE: u8 = 10;

/// One round of the quit watcher: it has tried to read two bytes from
/// standard input. On the sequence `q` newline it fires the signal and
/// stops; on any other input it asks to loop again; on a read error it
/// stops silently without signalling.
pub fn quit_watch_step(sig: &mut CancellationSignal, read_ok: bool, b0: u8, b1: u8) -> (stop: bool)
    ensures
        stop == (!read_ok || (b0 == QUIT_BYTE && b1 == NEWLINE_BYTE)),
        final(sig).is_set() == (old(sig).is_set() || (read_ok && b0 == QUIT_BYTE
            && b1 == NEWLINE_BYTE)),
{
    if !read_ok {
        return true;
    }
    if b0 == QUIT_BYTE && b1 == NEWLINE_BYTE {
        sig.send();
        true
    } else {
        false
    }
}

} // verus!
