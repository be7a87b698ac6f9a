//! The client role's state: its name and the set of hosts it has heard
//! announce themselves. The discovery socket, the chat connection and
//! their loops live outside; they record into and read from this state
//! through the peer set's operations and render lines through
//! `render_incoming`.

use vstd::prelude::*;

verus! {

use crate::discovery::DiscoveredPeerSet;
use crate::text::trim_spec;
use crate::text::trim_string;

/// One client session's state. The peer set grows while the discovery
/// loop runs and is read by the command layer; it is guarded by a lock
/// outside, and cleared only by recreating the client.
pub struct Client {
    pub name: String,
    pub hosts: DiscoveredPeerSet,
}

impl Client {
    pub fn new(name: String) -> (c: Client)
        ensures
            c.name@ == name@,
            c.hosts.wf(),
            c.hosts@ == Seq::<(Seq<char>, u16)>::empty(),
    {
        Client { name, hosts: DiscoveredPeerSet::new() }
    }
}

/// An incoming chat line as shown to the user: trimmed of surrounding
/// whitespace and marked with the incoming-line prefix.
pub fn render_incoming(line: &String) -> (r: String)
    ensures
        r@ == "> "@ + trim_spec(line@),
{
    let mut s = "> ".to_owned();
    let t = trim_string(line);
    s.append(t.as_str());
    s
}

} // verus!
