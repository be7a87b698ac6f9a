//! Relay engine: the session directory that maps each live connection to
//! its outbound mailbox, the bounded mailbox itself, and the per-connection
//! step function that drives fan-out and teardown. The accept loop and the
//! sockets live outside; they register a connection when it is accepted and
//! then call these functions under the directory's single lock, one map
//! operation per hold.

use vstd::prelude::*;

verus! {

use crate::text::views_of;

/// One line received from a client, tagged with the sender's address
/// (its "ip:port" form) before fan-out to the other connections.
pub struct RelayedMessage {
    pub producer: String,
    pub text: String,
}

impl View for RelayedMessage {
    type V = (Seq<char>, Seq<char>);

    open spec fn view(&self) -> (Seq<char>, Seq<char>) {
        (self.producer@, self.text@)
    }
}

/// Spec-level image of one directory entry: the connection's remote
/// address, its mailbox capacity, and the queued messages, oldest first.
pub struct DirEntryV {
    pub addr: Seq<char>,
    pub cap: nat,
    pub queue: Seq<(Seq<char>, Seq<char>)>,
}

/// A bounded first-in-first-out queue of pending outbound lines for exactly
/// one connection. A full mailbox refuses further messages so that a slow
/// reader exerts backpressure on its own traffic only.
pub struct Mailbox {
    items: Vec<RelayedMessage>,
    cap: usize,
}

impl Mailbox {
    /// The queued messages, oldest first, as (producer, text) pairs.
    pub closed spec fn contents(self) -> Seq<(Seq<char>, Seq<char>)> {
        self.items@.map_values(|m: RelayedMessage| m@)
    }

    /// The bound the mailbox was created with.
    pub closed spec fn capacity(self) -> nat {
        self.cap as nat
    }

    /// The queue never exceeds its bound.
    pub closed spec fn wf(self) -> bool {
        self.items@.len() <= self.cap
    }

    pub fn new(capacity: usize) -> (m: Mailbox)
        ensures
            m.wf(),
            m.contents() == Seq::<(Seq<char>, Seq<char>)>::empty(),
            m.capacity() == capacity,
    {
        let m = Mailbox { items: Vec::new(), cap: capacity };
        proof {
            assert(m.contents() =~= Seq::<(Seq<char>, Seq<char>)>::empty());
        }
        m
    }

    /// Enqueue at the tail, unless the mailbox is full: a full mailbox
    /// drops the message and reports the refusal.
    pub fn try_send(&mut self, m: RelayedMessage) -> (accepted: bool)
        requires
            old(self).wf(),
        ensures
            final(self).wf(),
            final(self).capacity() == old(self).capacity(),
            accepted == (old(self).contents().len() < old(self).capacity()),
            final(self).contents() == if accepted {
                old(self).contents().push(m@)
            } else {
                old(self).contents()
            },
    {
        if self.items.len() < self.cap {
            let ghost mv = m@;
            self.items.push(m);
            proof {
                assert(self.contents() =~= old(self).contents().push(mv));
            }
            true
        } else {
            false
        }
    }

    /// Dequeue the oldest pending message, if any.
    pub fn recv(&mut self) -> (r: Option<RelayedMessage>)
        requires
            old(self).wf(),
        ensures
            final(self).wf(),
            final(self).capacity() == old(self).capacity(),
            match r {
                Some(m) => old(self).contents().len() > 0 && m@ == old(self).contents()[0]
                    && final(self).contents() == old(self).contents().drop_first(),
                None => old(self).contents().len() == 0 && *final(self) == *old(self),
            },
    {
        if self.items.len() > 0 {
            let m = self.items.remove(0);
            proof {
                assert(self.contents() =~= old(self).contents().drop_first());
            }
            Some(m)
        } else {
            None
        }
    }

    pub fn len(&self) -> (n: usize)
        ensures
            n == self.contents().len(),
    {
        self.items.len()
    }

    pub fn is_full(&self) -> (r: bool)
        ensures
            r == (self.contents().len() >= self.capacity()),
    {
        self.items.len() >= self.cap
    }
}

/// Whether some entry of the directory image carries this address.
pub open spec fn dir_has(v: Seq<DirEntryV>, a: Seq<char>) -> bool {
    exists|i: int| 0 <= i < v.len() && v[i].addr == a
}

/// The index of the entry carrying this address; meaningful only under
/// `dir_wf`, which makes the index unique.
pub open spec fn dir_index(v: Seq<DirEntryV>, a: Seq<char>) -> int {
    choose|i: int| 0 <= i < v.len() && v[i].addr == a
}

/// Well-formed directory image: addresses are pairwise distinct and no
/// queue exceeds its mailbox's bound.
pub open spec fn dir_wf(v: Seq<DirEntryV>) -> bool {
    &&& forall|i: int, j: int|
        #![trigger v[i].addr, v[j].addr]
        0 <= i < j < v.len() ==> v[i].addr != v[j].addr
    &&& forall|i: int| 0 <= i < v.len() ==> (#[trigger] v[i].queue).len() <= v[i].cap
}

/// The queue of the entry carrying this address.
pub open spec fn dir_queue_of(v: Seq<DirEntryV>, a: Seq<char>) -> Seq<(Seq<char>, Seq<char>)> {
    v[dir_index(v, a)].queue
}

/// Joining: an absent address gains an entry with an empty queue at the
/// tail; a present one leaves the directory unchanged.
pub open spec fn register_spec(v: Seq<DirEntryV>, a: Seq<char>, cap: nat) -> Seq<DirEntryV> {
    if dir_has(v, a) {
        v
    } else {
        v.push(DirEntryV { addr: a, cap: cap, queue: Seq::empty() })
    }
}

/// Leaving: the entry carrying this address disappears; the others keep
/// their relative order.
pub open spec fn remove_spec(v: Seq<DirEntryV>, a: Seq<char>) -> Seq<DirEntryV> {
    if dir_has(v, a) {
        v.remove(dir_index(v, a))
    } else {
        v
    }
}

/// Fan-out seen by one entry: the producer's own entry and every full
/// mailbox stay as they are; every other queue gains the message at its
/// tail.
pub open spec fn entry_relayed(e: DirEntryV, producer: Seq<char>, text: Seq<char>) -> DirEntryV {
    if e.addr == producer || e.queue.len() >= e.cap {
        e
    } else {
        DirEntryV { queue: e.queue.push((producer, text)), ..e }
    }
}

/// Fan-out of one line over the whole directory image.
pub open spec fn relay_spec(v: Seq<DirEntryV>, producer: Seq<char>, text: Seq<char>) -> Seq<
    DirEntryV,
> {
    v.map_values(|e: DirEntryV| entry_relayed(e, producer, text))
}

/// The addresses whose mailboxes refuse the message during fan-out: full
/// ones other than the producer's own, in directory order.
pub open spec fn dropped_spec(v: Seq<DirEntryV>, producer: Seq<char>) -> Seq<Seq<char>>
    decreases v.len(),
{
    if v.len() == 0 {
        Seq::empty()
    } else {
        let rest = dropped_spec(v.drop_last(), producer);
        let e = v.last();
        if e.addr != producer && e.queue.len() >= e.cap {
            rest.push(e.addr)
        } else {
            rest
        }
    }
}

/// Fan-out keeps the directory image well formed: addresses and bounds are
/// untouched and a queue only grows while it has room.
proof fn lemma_relay_wf(v: Seq<DirEntryV>, p: Seq<char>, t: Seq<char>)
    requires
        dir_wf(v),
    ensures
        dir_wf(relay_spec(v, p, t)),
{
    let r = relay_spec(v, p, t);
    assert forall|i: int| 0 <= i < r.len() implies (#[trigger] r[i].queue).len() <= r[i].cap by {
        assert(r[i] == entry_relayed(v[i], p, t));
    }
    assert forall|a: int, b: int|
        #![trigger r[a].addr, r[b].addr]
        0 <= a < b < r.len() implies r[a].addr != r[b].addr by {
        assert(r[a] == entry_relayed(v[a], p, t));
        assert(r[b] == entry_relayed(v[b], p, t));
    }
}

/// Unfolding of `dropped_spec` over one more leading entry.
proof fn lemma_dropped_step(v: Seq<DirEntryV>, p: Seq<char>, i: int)
    requires
        0 <= i < v.len(),
    ensures
        dropped_spec(v.take(i + 1), p) == if v[i].addr != p && v[i].queue.len() >= v[i].cap {
            dropped_spec(v.take(i), p).push(v[i].addr)
        } else {
            dropped_spec(v.take(i), p)
        },
{
    assert(v.take(i + 1).drop_last() =~= v.take(i));
    assert(v.take(i + 1).last() == v[i]);
}

/// Shared mapping from a live connection's remote address to that
/// connection's outbound mailbox. One instance per host session; every
/// mutation happens under the caller's single lock, held only for the
/// duration of the map operation.
pub struct SessionDirectory {
    entries: Vec<(String, Mailbox)>,
}

impl View for SessionDirectory {
    type V = Seq<DirEntryV>;

    closed spec fn view(&self) -> Seq<DirEntryV> {
        self.entries@.map_values(
            |e: (String, Mailbox)|
                DirEntryV { addr: e.0@, cap: e.1.capacity(), queue: e.1.contents() },
        )
    }
}

impl SessionDirectory {
    /// The directory's invariant: distinct addresses, bounded queues.
    pub open spec fn wf(self) -> bool {
        dir_wf(self@)
    }

    pub fn new() -> (d: SessionDirectory)
        ensures
            d.wf(),
            d@ == Seq::<DirEntryV>::empty(),
    {
        let d = SessionDirectory { entries: Vec::new() };
        proof {
            assert(d@ =~= Seq::<DirEntryV>::empty());
        }
        d
    }

    /// The index of the entry for this address, if one exists.
    fn find(&self, addr: &String) -> (r: Option<usize>)
        ensures
            match r {
                Some(i) => 0 <= i < self@.len() && self@[i as int].addr == addr@ && dir_has(
                    self@,
                    addr@,
                ),
                None => !dir_has(self@, addr@),
            },
    {
        let n = self.entries.len();
        let mut j: usize = 0;
        while j < n
            invariant
                j <= n,
                n == self.entries@.len(),
                forall|k: int| 0 <= k < j ==> (#[trigger] self@[k]).addr != addr@,
            decreases n - j,
        {
            if self.entries[j].0 == *addr {
                proof {
                    assert(self@[j as int].addr == self.entries@[j as int].0@);
                    assert(dir_has(self@, addr@));
                }
                return Some(j);
            }
            j += 1;
        }
        None
    }

    /// Under `dir_wf`, an index whose entry carries the address is the one
    /// `dir_index` names.
    proof fn lemma_index_unique(v: Seq<DirEntryV>, a: Seq<char>, i: int)
        requires
            dir_wf(v),
            0 <= i < v.len(),
            v[i].addr == a,
        ensures
            dir_index(v, a) == i,
    {
        assert(dir_has(v, a));
        let k = dir_index(v, a);
        assert(0 <= k < v.len() && v[k].addr == a);
        if k != i {
            if k < i {
                assert(v[k].addr != v[i].addr);
            } else {
                assert(v[i].addr != v[k].addr);
            }
        }
    }

    /// Insert an entry for a newly accepted connection, with an empty
    /// mailbox of the given capacity. An address already present keeps its
    /// existing entry untouched; the call reports whether it was fresh.
    pub fn register(&mut self, addr: String, capacity: usize) -> (fresh: bool)
        requires
            old(self).wf(),
        ensures
            final(self).wf(),
            fresh == !dir_has(old(self)@, addr@),
            final(self)@ == register_spec(old(self)@, addr@, capacity as nat),
    {
        match self.find(&addr) {
            Some(_) => false,
            None => {
                let ghost a = addr@;
                let mb = Mailbox::new(capacity);
                self.entries.push((addr, mb));
                proof {
                    assert(self@ =~= old(self)@.push(
                        DirEntryV { addr: a, cap: capacity as nat, queue: Seq::empty() },
                    ));
                    assert forall|i: int, j: int|
                        #![trigger self@[i].addr, self@[j].addr]
                        0 <= i < j < self@.len() implies self@[i].addr != self@[j].addr by {
                        if j == self@.len() - 1 {
                            assert(!dir_has(old(self)@, a));
                            assert(self@[i] == old(self)@[i]);
                        }
                    }
                }
                true
            },
        }
    }

    /// Remove the entry for a departing connection, reporting whether one
    /// was present. Entries of other connections keep their order.
    pub fn deregister(&mut self, addr: &String) -> (present: bool)
        requires
            old(self).wf(),
        ensures
            final(self).wf(),
            present == dir_has(old(self)@, addr@),
            final(self)@ == remove_spec(old(self)@, addr@),
            !dir_has(final(self)@, addr@),
    {
        match self.find(addr) {
            Some(i) => {
                let _ = self.entries.remove(i);
                proof {
                    Self::lemma_index_unique(old(self)@, addr@, i as int);
                    assert(self@ =~= old(self)@.remove(i as int));
                    assert forall|k: int| 0 <= k < self@.len() implies (#[trigger] self@[k]).addr
                        != addr@ by {
                        if k < i {
                            assert(self@[k] == old(self)@[k]);
                        } else {
                            assert(self@[k] == old(self)@[k + 1]);
                        }
                    }
                }
                true
            },
            None => false,
        }
    }

    /// Whether this address currently has an entry.
    pub fn contains(&self, addr: &String) -> (r: bool)
        ensures
            r == dir_has(self@, addr@),
    {
        match self.find(addr) {
            Some(_) => true,
            None => false,
        }
    }

    /// The number of live entries.
    pub fn len(&self) -> (n: usize)
        ensures
            n == self@.len(),
    {
        self.entries.len()
    }

    /// Relay one completed line from `producer` to every other connection.
    /// Each other entry's mailbox gains the message at its tail, unless that
    /// mailbox is full: then the message is dropped for that one recipient
    /// alone. The producer's own mailbox is never touched. The addresses of
    /// the refusing mailboxes come back, in directory order, so the caller
    /// can report them.
    #[verifier::rlimit(50)]
    pub fn fan_out(&mut self, producer: &String, text: &String) -> (dropped: Vec<String>)
        requires
            old(self).wf(),
        ensures
            final(self).wf(),
            final(self)@ == relay_spec(old(self)@, producer@, text@),
            views_of(dropped@) == dropped_spec(old(self)@, producer@),
    {
        let ghost v0 = self@;
        let mut dropped: Vec<String> = Vec::new();
        let n = self.entries.len();
        let mut i: usize = 0;
        proof {
            assert(views_of(dropped@) =~= dropped_spec(v0.take(0), producer@));
        }
        while i < n
            invariant
                i <= n,
                n == self.entries@.len(),
                v0.len() == n,
                dir_wf(v0),
                forall|j: int|
                    0 <= j < i ==> #[trigger] self@[j] == entry_relayed(v0[j], producer@, text@),
                forall|j: int| i <= j < n ==> #[trigger] self@[j] == v0[j],
                views_of(dropped@) == dropped_spec(v0.take(i as int), producer@),
            decreases n - i,
        {
            let ghost dropped0 = dropped@;
            let ghost before = self@;
            let ghost ents0 = self.entries@;
            let is_producer = self.entries[i].0 == *producer;
            if !is_producer {
                let msg = RelayedMessage { producer: producer.clone(), text: text.clone() };
                proof {
                    assert(before[i as int].queue == self.entries@[i as int].1.contents());
                    assert(before[i as int].queue.len() <= before[i as int].cap);
                }
                let e = &mut self.entries[i];
                let accepted = e.1.try_send(msg);
                proof {
                    assert(self@[i as int] == entry_relayed(v0[i as int], producer@, text@));
                    assert forall|j: int| 0 <= j < n && j != i implies #[trigger] self@[j]
                        == before[j] by {
                        assert(self.entries@[j] == ents0[j]);
                    }
                }
                if !accepted {
                    let a = self.entries[i].0.clone();
                    dropped.push(a);
                    proof {
                        assert(views_of(dropped@) =~= views_of(dropped0).push(
                            v0[i as int].addr,
                        ));
                    }
                }
            } else {
                proof {
                    assert(self@[i as int] == entry_relayed(v0[i as int], producer@, text@));
                }
            }
            proof {
                lemma_dropped_step(v0, producer@, i as int);
            }
            i += 1;
        }
        proof {
            assert(v0.take(n as int) =~= v0);
            assert(self@ =~= relay_spec(v0, producer@, text@));
            lemma_relay_wf(v0, producer@, text@);
        }
        dropped
    }

    /// Take the oldest message pending for this connection, if its entry
    /// exists and has one; the rest of the directory is untouched.
    pub fn pop_message(&mut self, addr: &String) -> (r: Option<RelayedMessage>)
        requires
            old(self).wf(),
        ensures
            final(self).wf(),
            match r {
                Some(m) => dir_has(old(self)@, addr@) && dir_queue_of(old(self)@, addr@).len() > 0
                    && m@ == dir_queue_of(old(self)@, addr@)[0] && final(self)@ == old(
                    self,
                )@.update(
                    dir_index(old(self)@, addr@),
                    DirEntryV {
                        queue: dir_queue_of(old(self)@, addr@).drop_first(),
                        ..old(self)@[dir_index(old(self)@, addr@)]
                    },
                ),
                None => final(self)@ == old(self)@ && (!dir_has(old(self)@, addr@)
                    || dir_queue_of(old(self)@, addr@).len() == 0),
            },
    {
        match self.find(addr) {
            Some(i) => {
                proof {
                    Self::lemma_index_unique(old(self)@, addr@, i as int);
                    assert(self@[i as int].queue == self.entries@[i as int].1.contents());
                    assert(self@[i as int].queue.len() <= self@[i as int].cap);
                }
                let ghost ents0 = self.entries@;
                let e = &mut self.entries[i];
                let r = e.1.recv();
                proof {
                    assert forall|j: int| 0 <= j < self@.len() && j != i implies #[trigger] self@[j]
                        == old(self)@[j] by {
                        assert(self.entries@[j] == ents0[j]);
                    }
                    if r is Some {
                        assert(self@ =~= old(self)@.update(
                            i as int,
                            DirEntryV {
                                queue: dir_queue_of(old(self)@, addr@).drop_first(),
                                ..old(self)@[i as int]
                            },
                        ));
                    } else {
                        assert(self@ =~= old(self)@);
                    }
                }
                r
            },
            None => None,
        }
    }
}

/// One event observed by a connection's handler while it multiplexes its
/// socket's read side against its own mailbox.
pub enum ConnEvent {
    /// A newline-terminated line arrived from the socket.
    LineRead { line: String },
    /// The read side observed a clean end-of-stream.
    EndOfStream,
    /// The read side failed.
    ReadError,
    /// The handler asks whether a relayed message is pending for it.
    PollInbox,
    /// Writing a relayed message to the socket failed.
    WriteError,
}

/// What the handler must do next after one event.
pub enum ConnAction {
    /// Keep waiting for the next event.
    Continue,
    /// Write this text to the socket, then keep waiting.
    WriteOut { text: String },
    /// The line was fanned out; these recipients' mailboxes were full, so
    /// their copies were dropped. Keep waiting.
    Relayed { dropped: Vec<String> },
    /// Leave the loop; the connection's entry is already removed.
    Stop,
}

/// One decision step of the per-connection handler for the connection at
/// address `me`. A completed line is fanned out to all other entries; an
/// end-of-stream or a fatal I/O error removes this connection's entry, and
/// only then does the handler stop, so no later fan-out can see it; polling
/// the inbox dequeues the oldest pending message for writing.
pub fn conn_step(dir: &mut SessionDirectory, me: &String, ev: ConnEvent) -> (act: ConnAction)
    requires
        old(dir).wf(),
    ensures
        final(dir).wf(),
        ev matches ConnEvent::LineRead { line } ==> {
            &&& final(dir)@ == relay_spec(old(dir)@, me@, line@)
            &&& act matches ConnAction::Relayed { dropped } && views_of(dropped@) == dropped_spec(
                old(dir)@,
                me@,
            )
        },
        ev is EndOfStream || ev is ReadError || ev is WriteError ==> final(dir)@ == remove_spec(
            old(dir)@,
            me@,
        ) && !dir_has(final(dir)@, me@) && act is Stop,
        ev is PollInbox ==> if dir_has(old(dir)@, me@) && dir_queue_of(old(dir)@, me@).len() > 0 {
            &&& act matches ConnAction::WriteOut { text } && text@ == dir_queue_of(
                old(dir)@,
                me@,
            )[0].1
            &&& final(dir)@ == old(dir)@.update(
                dir_index(old(dir)@, me@),
                DirEntryV {
                    queue: dir_queue_of(old(dir)@, me@).drop_first(),
                    ..old(dir)@[dir_index(old(dir)@, me@)]
                },
            )
        } else {
            final(dir)@ == old(dir)@ && act is Continue
        },
{
    match ev {
        ConnEvent::LineRead { line } => {
            let dropped = dir.fan_out(me, &line);
            ConnAction::Relayed { dropped }
        },
        ConnEvent::EndOfStream => {
            let _ = dir.deregister(me);
            ConnAction::Stop
        },
        ConnEvent::ReadError => {
            let _ = dir.deregister(me);
            ConnAction::Stop
        },
        ConnEvent::PollInbox => {
            match dir.pop_message(me) {
                Some(m) => ConnAction::WriteOut { text: m.text },
                None => ConnAction::Continue,
            }
        },
        ConnEvent::WriteError => {
            let _ = dir.deregister(me);
            ConnAction::Stop
        },
    }
}

/// Fan-out delivers the line to every other connection whose mailbox has
/// room, appending it at the tail of that recipient's queue.
pub proof fn lemma_relay_delivers(v: Seq<DirEntryV>, p: Seq<char>, t: Seq<char>, i: int)
    requires
        0 <= i < v.len(),
        v[i].addr != p,
        v[i].queue.len() < v[i].cap,
    ensures
        relay_spec(v, p, t)[i].queue == v[i].queue.push((p, t)),
        relay_spec(v, p, t)[i].addr == v[i].addr,
{
    assert(relay_spec(v, p, t)[i] == entry_relayed(v[i], p, t));
}

/// Fan-out of a whole sequence of lines from one producer, oldest first.
pub open spec fn relay_all_spec(
    v: Seq<DirEntryV>,
    p: Seq<char>,
    lines: Seq<Seq<char>>,
) -> Seq<DirEntryV>
    decreases lines.len(),
{
    if lines.len() == 0 {
        v
    } else {
        relay_all_spec(relay_spec(v, p, lines[0]), p, lines.drop_first())
    }
}

/// For any sequence of lines sent by one producer: every other connection
/// whose mailbox has room for all of them receives every line, appended in
/// sending order, so the relative order of one sender's lines is preserved
/// at each recipient.
pub proof fn lemma_relay_sequence_order(
    v: Seq<DirEntryV>,
    p: Seq<char>,
    lines: Seq<Seq<char>>,
    i: int,
)
    requires
        0 <= i < v.len(),
        v[i].addr != p,
        v[i].queue.len() + lines.len() <= v[i].cap,
    ensures
        relay_all_spec(v, p, lines).len() == v.len(),
        relay_all_spec(v, p, lines)[i].addr == v[i].addr,
        relay_all_spec(v, p, lines)[i].cap == v[i].cap,
        relay_all_spec(v, p, lines)[i].queue == v[i].queue + lines.map_values(
            |t: Seq<char>| (p, t),
        ),
    decreases lines.len(),
{
    let tag = |t: Seq<char>| (p, t);
    if lines.len() == 0 {
        assert(v[i].queue + lines.map_values(tag) =~= v[i].queue);
    } else {
        let v1 = relay_spec(v, p, lines[0]);
        assert(v1[i] == entry_relayed(v[i], p, lines[0]));
        lemma_relay_sequence_order(v1, p, lines.drop_first(), i);
        assert(v1[i].queue + lines.drop_first().map_values(tag) =~= v[i].queue + lines.map_values(
            tag,
        ));
    }
}

/// A line is never delivered back to its own producer: fan-out leaves the
/// producer's queue exactly as it was.
pub proof fn lemma_no_self_delivery(v: Seq<DirEntryV>, p: Seq<char>, t: Seq<char>, i: int)
    requires
        0 <= i < v.len(),
        v[i].addr == p,
    ensures
        relay_spec(v, p, t)[i].queue == v[i].queue,
{
    assert(relay_spec(v, p, t)[i] == entry_relayed(v[i], p, t));
}

/// Stronger form of the same law: a queue that holds no message produced
/// by its own connection still holds none after any fan-out.
pub proof fn lemma_self_free_queue_preserved(v: Seq<DirEntryV>, p: Seq<char>, t: Seq<char>, i: int)
    requires
        0 <= i < v.len(),
        forall|k: int| 0 <= k < v[i].queue.len() ==> (#[trigger] v[i].queue[k]).0 != v[i].addr,
    ensures
        relay_spec(v, p, t)[i].addr == v[i].addr,
        forall|k: int|
            0 <= k < relay_spec(v, p, t)[i].queue.len() ==> (#[trigger] relay_spec(
                v,
                p,
                t,
            )[i].queue[k]).0 != v[i].addr,
{
    assert(relay_spec(v, p, t)[i] == entry_relayed(v[i], p, t));
}

/// One recipient's full mailbox is fully local: that one copy is dropped
/// and recorded, while the same line still reaches every other recipient
/// whose mailbox has room.
pub proof fn lemma_full_drop_is_local(
    v: Seq<DirEntryV>,
    p: Seq<char>,
    t: Seq<char>,
    i: int,
    j: int,
)
    requires
        0 <= i < v.len(),
        0 <= j < v.len(),
        i != j,
        v[i].addr != p,
        v[i].queue.len() >= v[i].cap,
        v[j].addr != p,
        v[j].queue.len() < v[j].cap,
    ensures
        relay_spec(v, p, t)[i].queue == v[i].queue,
        relay_spec(v, p, t)[j].queue == v[j].queue.push((p, t)),
        dropped_spec(v, p).contains(v[i].addr),
{
    assert(relay_spec(v, p, t)[i] == entry_relayed(v[i], p, t));
    assert(relay_spec(v, p, t)[j] == entry_relayed(v[j], p, t));
    lemma_dropped_records_full(v, p, i);
}

/// A full mailbox of a connection other than the producer is recorded in
/// the dropped list of the fan-out.
proof fn lemma_dropped_records_full(v: Seq<DirEntryV>, p: Seq<char>, i: int)
    requires
        0 <= i < v.len(),
        v[i].addr != p,
        v[i].queue.len() >= v[i].cap,
    ensures
        dropped_spec(v, p).contains(v[i].addr),
    decreases v.len(),
{
    if i == v.len() - 1 {
        assert(v.last() == v[i]);
        assert(dropped_spec(v, p).last() == v[i].addr);
    } else {
        assert(v.drop_last()[i] == v[i]);
        lemma_dropped_records_full(v.drop_last(), p, i);
        let rest = dropped_spec(v.drop_last(), p);
        let k = choose|k: int| 0 <= k < rest.len() && rest[k] == v[i].addr;
        if v.last().addr != p && v.last().queue.len() >= v.last().cap {
            assert(dropped_spec(v, p)[k] == v[i].addr);
        } else {
            assert(dropped_spec(v, p)[k] == v[i].addr);
        }
    }
}

/// Once a connection's entry is removed, any later fan-out sees a directory
/// without it: nothing more can be enqueued for that address.
pub proof fn lemma_removed_gets_nothing(v: Seq<DirEntryV>, a: Seq<char>, p: Seq<char>, t: Seq<char>)
    requires
        dir_wf(v),
    ensures
        !dir_has(remove_spec(v, a), a),
        !dir_has(relay_spec(remove_spec(v, a), p, t), a),
{
    let w = remove_spec(v, a);
    if dir_has(v, a) {
        let i = dir_index(v, a);
        assert(0 <= i < v.len() && v[i].addr == a);
        assert forall|k: int| 0 <= k < w.len() implies (#[trigger] w[k]).addr != a by {
            if k < i {
                assert(w[k] == v[k]);
            } else {
                assert(w[k] == v[k + 1]);
            }
        }
    }
    assert forall|k: int| 0 <= k < relay_spec(w, p, t).len() implies (#[trigger] relay_spec(
        w,
        p,
        t,
    )[k]).addr != a by {
        assert(relay_spec(w, p, t)[k] == entry_relayed(w[k], p, t));
        assert(w[k].addr != a);
    }
}

} // verus!
