//! Discovery protocol: the set of hosts a client has heard announce
//! themselves over UDP broadcast. Identity is carried entirely by a
//! datagram's source address; the payload is a fixed greeting. The
//! listening loop and the socket live outside and hand each datagram's
//! source address to `DiscoveredPeerSet::record`.

use vstd::prelude::*;

verus! {

use crate::text::{dec_str, u16_to_string};

/// The fixed, content-free greeting a host broadcasts once per second.
/// Receivers ignore the payload: identity is carried by the datagram's
/// source address alone.
pub fn announce_payload() -> (s: String)
    ensures
        s@ == "Hello from cli broadcaster!"@,
{
    "Hello from cli broadcaster!".to_owned()
}

/// The "host:port" form of an endpoint, used for binds and as the textual
/// key a peer is listed under.
pub fn endpoint_string(host: &String, port: u16) -> (s: String)
    ensures
        s@ == host@ + ":"@ + dec_str(port as int),
{
    let mut s = host.clone();
    s.append(":");
    let p = u16_to_string(port);
    s.append(p.as_str());
    s
}

/// The wildcard broadcast target for a given client port: every host on
/// the local network announcing to that port.
pub fn broadcast_target(client_port: u16) -> (s: String)
    ensures
        s@ == "255.255.255.255:"@ + dec_str(client_port as int),
{
    let mut s = "255.255.255.255:".to_owned();
    let p = u16_to_string(client_port);
    s.append(p.as_str());
    s
}

/// A discovered host: the source address of one of its announcements,
/// split into its textual IP form and its port. Immutable once created.
#[derive(Debug)]
pub struct DiscoveryMessage {
    pub ip: String,
    pub port: u16,
}

impl View for DiscoveryMessage {
    type V = (Seq<char>, u16);

    open spec fn view(&self) -> (Seq<char>, u16) {
        (self.ip@, self.port)
    }
}

impl DiscoveryMessage {
    pub fn new(ip: String, port: u16) -> (m: DiscoveryMessage)
        ensures
            m@ == (ip@, port),
    {
        DiscoveryMessage { ip, port }
    }
}

/// Recording one announcement: a source address already present leaves the
/// set unchanged; a new one is appended.
pub open spec fn record_spec(v: Seq<(Seq<char>, u16)>, k: (Seq<char>, u16)) -> Seq<
    (Seq<char>, u16),
> {
    if v.contains(k) {
        v
    } else {
        v.push(k)
    }
}

/// Recording a whole sequence of announcements, oldest first.
pub open spec fn record_all_spec(
    v: Seq<(Seq<char>, u16)>,
    anns: Seq<(Seq<char>, u16)>,
) -> Seq<(Seq<char>, u16)>
    decreases anns.len(),
{
    if anns.len() == 0 {
        v
    } else {
        record_all_spec(record_spec(v, anns[0]), anns.drop_first())
    }
}

/// The set of hosts one client session has discovered, deduplicated by
/// announcement source address. It only grows during a session; it is
/// cleared only by recreating the client. The owning client guards it with
/// a lock, because the listening task records into it while the command
/// layer reads it.
pub struct DiscoveredPeerSet {
    items: Vec<DiscoveryMessage>,
}

impl View for DiscoveredPeerSet {
    type V = Seq<(Seq<char>, u16)>;

    closed spec fn view(&self) -> Seq<(Seq<char>, u16)> {
        self.items@.map_values(|m: DiscoveryMessage| m@)
    }
}

impl DiscoveredPeerSet {
    /// No source address appears twice.
    pub open spec fn wf(self) -> bool {
        self@.no_duplicates()
    }

    pub fn new() -> (s: DiscoveredPeerSet)
        ensures
            s.wf(),
            s@ == Seq::<(Seq<char>, u16)>::empty(),
    {
        let s = DiscoveredPeerSet { items: Vec::new() };
        proof {
            assert(s@ =~= Seq::<(Seq<char>, u16)>::empty());
        }
        s
    }

    /// Whether an announcement from this source address was already seen.
    pub fn contains(&self, ip: &String, port: u16) -> (r: bool)
        ensures
            r == self@.contains((ip@, port)),
    {
        let n = self.items.len();
        let mut j: usize = 0;
        while j < n
            invariant
                j <= n,
                n == self.items@.len(),
                forall|k: int| 0 <= k < j ==> #[trigger] self@[k] != (ip@, port),
            decreases n - j,
        {
            if self.items[j].ip == *ip && self.items[j].port == port {
                proof {
                    assert(self@[j as int] == (ip@, port));
                }
                return true;
            }
            proof {
                assert(self@[j as int] == self.items@[j as int]@);
            }
            j += 1;
        }
        proof {
            if self@.contains((ip@, port)) {
                let k = choose|k: int| 0 <= k < self@.len() && self@[k] == (ip@, port);
                assert(self@[k] != (ip@, port));
            }
        }
        false
    }

    /// Record one announcement, deduplicating by source address: an address
    /// already present is skipped, a new one is appended. Reports whether
    /// the address was new.
    pub fn record(&mut self, ip: String, port: u16) -> (fresh: bool)
        requires
            old(self).wf(),
        ensures
            final(self).wf(),
            fresh == !old(self)@.contains((ip@, port)),
            final(self)@ == record_spec(old(self)@, (ip@, port)),
    {
        if self.contains(&ip, port) {
            false
        } else {
            let ghost k = (ip@, port);
            self.items.push(DiscoveryMessage::new(ip, port));
            proof {
                assert(self@ =~= old(self)@.push(k));
                assert forall|a: int, b: int|
                    0 <= a < b < self@.len() implies self@[a] != self@[b] by {
                    if b == self@.len() - 1 {
                        assert(old(self)@[a] == self@[a]);
                        assert(!old(self)@.contains(k));
                    } else {
                        assert(old(self)@[a] == self@[a]);
                        assert(old(self)@[b] == self@[b]);
                    }
                }
            }
            true
        }
    }

    /// The number of distinct hosts discovered so far.
    pub fn len(&self) -> (n: usize)
        ensures
            n == self@.len(),
    {
        self.items.len()
    }

    pub fn is_empty(&self) -> (r: bool)
        ensures
            r == (self@.len() == 0),
    {
        self.items.len() == 0
    }

    /// The host recorded at this position, in discovery order.
    pub fn peer_at(&self, i: usize) -> (m: &DiscoveryMessage)
        requires
            i < self@.len(),
        ensures
            m@ == self@[i as int],
    {
        &self.items[i]
    }
}

/// Recording the same announcement a second time changes nothing: the
/// insert is idempotent.
pub proof fn lemma_record_idempotent(v: Seq<(Seq<char>, u16)>, k: (Seq<char>, u16))
    ensures
        record_spec(record_spec(v, k), k) == record_spec(v, k),
{
    if !v.contains(k) {
        assert(v.push(k)[v.len() as int] == k);
        assert(v.push(k).contains(k));
    }
}

/// Recording announcements from any mixture of sources, with any number of
/// repetitions, leaves the peer set holding exactly one entry per distinct
/// source address: starting empty, after a sequence of announcements the
/// set's entries are exactly the distinct addresses seen, and its size is
/// the number of those addresses.
pub proof fn lemma_record_all_counts_distinct(anns: Seq<(Seq<char>, u16)>)
    ensures
        record_all_spec(Seq::empty(), anns).to_set() == anns.to_set(),
        record_all_spec(Seq::empty(), anns).no_duplicates(),
        record_all_spec(Seq::empty(), anns).len() == anns.to_set().len(),
{
    let r = record_all_spec(Seq::empty(), anns);
    lemma_record_all_from(Seq::empty(), anns);
    assert(Seq::<(Seq<char>, u16)>::empty().to_set() =~= Set::empty());
    assert(r.to_set() =~= anns.to_set());
    r.unique_seq_to_set();
}

/// Generalisation for the induction: recording onto any duplicate-free set
/// keeps it duplicate-free and unions in the announcement addresses.
proof fn lemma_record_all_from(v: Seq<(Seq<char>, u16)>, anns: Seq<(Seq<char>, u16)>)
    requires
        v.no_duplicates(),
    ensures
        record_all_spec(v, anns).no_duplicates(),
        record_all_spec(v, anns).to_set() == v.to_set() + anns.to_set(),
    decreases anns.len(),
{
    broadcast use vstd::prelude::Seq::lemma_push_to_set_commute;

    if anns.len() == 0 {
        assert(anns.to_set() =~= Set::empty());
        assert(record_all_spec(v, anns).to_set() =~= v.to_set() + anns.to_set());
    } else {
        let k = anns[0];
        let v1 = record_spec(v, k);
        if v.contains(k) {
            assert(v1.to_set() =~= v.to_set().insert(k));
        } else {
            assert forall|a: int, b: int| 0 <= a < b < v1.len() implies v1[a] != v1[b] by {
                if b == v1.len() - 1 {
                    assert(v[a] == v1[a]);
                } else {
                    assert(v[a] == v1[a]);
                    assert(v[b] == v1[b]);
                }
            }
        }
        lemma_record_all_from(v1, anns.drop_first());
        assert(v1.to_set() == v.to_set().insert(k)) by {
            if v.contains(k) {
                assert(v.to_set().contains(k));
                assert(v1.to_set() =~= v.to_set().insert(k));
            }
        }
        assert(anns.to_set() == anns.drop_first().to_set().insert(k)) by {
            assert forall|x: (Seq<char>, u16)| anns.to_set().contains(x) implies anns.drop_first()
                .to_set().insert(k).contains(x) by {
                let idx = choose|idx: int| 0 <= idx < anns.len() && anns[idx] == x;
                if idx > 0 {
                    assert(anns.drop_first()[idx - 1] == x);
                    assert(anns.drop_first().contains(x));
                }
            }
            assert forall|x: (Seq<char>, u16)|
                anns.drop_first().to_set().insert(k).contains(x) implies anns.to_set().contains(
                x,
            ) by {
                if x == k {
                    assert(anns[0] == x);
                } else {
                    let idx = choose|idx: int|
                        0 <= idx < anns.drop_first().len() && anns.drop_first()[idx] == x;
                    assert(anns[idx + 1] == x);
                }
            }
            assert(anns.to_set() =~= anns.drop_first().to_set().insert(k));
        }
        assert(record_all_spec(v, anns) == record_all_spec(v1, anns.drop_first()));
        assert(record_all_spec(v, anns).to_set() =~= v.to_set() + anns.to_set());
    }
}

} // verus!
