//! The chat server's state: the connections it serves and the messages of the
//! current tick. The transport accepts sockets and moves bytes; each tick drives
//! every connection, collects the messages that arrived, hands each of them to
//! every logged-in connection, and drops the connections that have ended.
use vstd::prelude::*;

use crate::connection::received_step;
use crate::connection::same_but_stream;
use crate::connection::sent_step;
use crate::connection::Connection;
use crate::envelope::decode_message;
use crate::envelope::decoded_message;
use crate::envelope::encode_message;
use crate::envelope::json_quoted;
use crate::envelope::message_envelope;
use crate::envelope::MesasgeFromUser;
use vstd::utf8::encode_utf8;

verus! {

/// The payloads waiting in a connection, if it is established.
pub open spec fn established_queue(c: Connection) -> Seq<Seq<u8>> {
    match c {
        Connection::Established(e) => e.receiver().queue(),
        _ => Seq::empty(),
    }
}

/// The payloads waiting in the established connections, connection by
/// connection, each in arrival order.
pub open spec fn queued_payloads(cs: Seq<Connection>) -> Seq<Seq<u8>>
    decreases cs.len(),
{
    if cs.len() == 0 {
        Seq::empty()
    } else {
        queued_payloads(cs.drop_last()) + established_queue(cs.last())
    }
}

/// The messages that a sequence of payloads carries, in order; payloads that
/// are not message envelopes are skipped.
pub open spec fn decoded_messages(cmds: Seq<Seq<u8>>) -> Seq<(Seq<char>, Seq<char>)>
    decreases cmds.len(),
{
    if cmds.len() == 0 {
        Seq::empty()
    } else {
        let prev = decoded_messages(cmds.drop_last());
        match decoded_message(cmds.last()) {
            Some(m) => prev.push(m),
            None => prev,
        }
    }
}

/// The envelope texts of a sequence of messages.
pub open spec fn envelopes_of(ms: Seq<(Seq<char>, Seq<char>)>) -> Seq<Seq<char>> {
    ms.map_values(|m: (Seq<char>, Seq<char>)| message_envelope(json_quoted(m.0), json_quoted(m.1)))
}

/// The payloads that handing out `ms` adds to each logged-in connection.
pub open spec fn envelope_payloads(ms: Seq<(Seq<char>, Seq<char>)>) -> Seq<Seq<u8>> {
    ms.map_values(|m: (Seq<char>, Seq<char>)| encode_utf8(message_envelope(json_quoted(m.0), json_quoted(m.1))))
}

/// `b` is `a` with its waiting payloads handed out.
pub open spec fn drained_conn(a: Connection, b: Connection) -> bool {
    &&& a matches Connection::Established(e) ==> (b matches Connection::Established(e2) && {
        &&& e2.user() == e.user()
        &&& e2.address() == e.address()
        &&& e2.sender() == e.sender()
        &&& e2.stream() == e.stream()
        &&& e2.receiver().history() == e.receiver().history()
        &&& e2.receiver().queue() == Seq::<Seq<u8>>::empty()
    })
    &&& !(a is Established) ==> b == a
}

/// `b` is `a` with the payloads `extra` queued for sending, if `a` is
/// established.
pub open spec fn fanned_conn(a: Connection, b: Connection, extra: Seq<Seq<u8>>) -> bool {
    &&& a matches Connection::Established(e) ==> (b matches Connection::Established(e2) && {
        &&& e2.user() == e.user()
        &&& e2.address() == e.address()
        &&& e2.receiver() == e.receiver()
        &&& e2.stream() == e.stream()
        &&& e2.sender().done() == e.sender().done()
        &&& e2.sender().transmitted() == e.sender().transmitted()
        &&& e2.sender().pending() == e.sender().pending() + extra
    })
    &&& !(a is Established) ==> b == a
}

/// The connection has ended.
pub open spec fn is_closed_conn(c: Connection) -> bool {
    c is Closed
}

/// One tick of the server, from the connections `before` to the connections
/// `after`, through the intermediate states: `received` after every connection's
/// receive, `drained` after the waiting payloads are taken, `fanned` after the
/// messages they carry, following the messages `earlier` already collected, are
/// queued on every established connection, and `sent` after every connection's
/// send; closed connections are then dropped.
pub open spec fn tick_steps(
    earlier: Seq<(Seq<char>, Seq<char>)>,
    before: Seq<Connection>,
    received: Seq<Connection>,
    drained: Seq<Connection>,
    fanned: Seq<Connection>,
    sent: Seq<Connection>,
    after: Seq<Connection>,
) -> bool {
    let n = before.len();
    let batch = envelope_payloads(earlier + decoded_messages(queued_payloads(received)));
    &&& received.len() == n && drained.len() == n && fanned.len() == n && sent.len() == n
    &&& forall|i: int| 0 <= i < n ==> received_step(#[trigger] before[i], received[i])
    &&& forall|i: int| 0 <= i < n ==> drained_conn(#[trigger] received[i], drained[i])
    &&& forall|i: int| 0 <= i < n ==> fanned_conn(#[trigger] drained[i], fanned[i], batch)
    &&& forall|i: int| 0 <= i < n ==> sent_step(#[trigger] fanned[i], sent[i])
    &&& after == sent.filter(|x: Connection| !is_closed_conn(x))
}

/// The connections a chat server serves, and the messages of the current tick.
pub struct ChatServer {
    connections: Vec<Connection>,
    messages_from_user: Vec<MesasgeFromUser>,
}

impl ChatServer {
    pub closed spec fn connections(&self) -> Seq<Connection> {
        self.connections@
    }

    /// The messages collected in this tick, not yet handed out.
    pub closed spec fn messages(&self) -> Seq<(Seq<char>, Seq<char>)> {
        self.messages_from_user@.map_values(|m: MesasgeFromUser| m.view())
    }

    pub open spec fn wf(&self) -> bool {
        forall|i: int| 0 <= i < self.connections().len() ==> (#[trigger] self.connections()[i]).wf()
    }

    /// A server with no connection.
    pub fn new() -> (r: ChatServer)
        ensures
            r.wf(),
            r.connections() == Seq::<Connection>::empty(),
            r.messages() == Seq::<(Seq<char>, Seq<char>)>::empty(),
    {
        let r = ChatServer { connections: Vec::new(), messages_from_user: Vec::new() };
        proof {
            assert(r.messages() =~= Seq::<(Seq<char>, Seq<char>)>::empty());
        }
        r
    }

    /// Number of connections.
    pub fn len(&self) -> (r: usize)
        ensures
            r == self.connections().len(),
    {
        self.connections.len()
    }

    /// Drives every connection's receive once.
    pub fn receive_data(&mut self)
        requires
            old(self).wf(),
        ensures
            final(self).wf(),
            final(self).messages() == old(self).messages(),
            final(self).connections().len() == old(self).connections().len(),
            forall|i: int| 0 <= i < old(self).connections().len() ==> received_step(
                #[trigger] old(self).connections()[i],
                final(self).connections()[i],
            ),
    {
        let mut rest: Vec<Connection> = Vec::new();
        std::mem::swap(&mut rest, &mut self.connections);
        let ghost old_cs = rest@;
        let mut done: Vec<Connection> = Vec::new();
        while rest.len() > 0
            invariant
                self.messages_from_user == old(self).messages_from_user,
                old_cs == old(self).connections@,
                done.len() + rest.len() == old_cs.len(),
                forall|j: int| 0 <= j < rest.len() ==> #[trigger] rest@[j] == old_cs[done.len() + j],
                forall|j: int| 0 <= j < done.len() ==> received_step(#[trigger] old_cs[j], done@[j]),
                forall|j: int| 0 <= j < done.len() ==> (#[trigger] done@[j]).wf(),
                forall|j: int| 0 <= j < old_cs.len() ==> (#[trigger] old_cs[j]).wf(),
            decreases rest.len(),
        {
            let c = rest.remove(0);
            assert(c == old_cs[done.len() as int]);
            let next = c.receive();
            done.push(next);
        }
        self.connections = done;
    }

    /// Drives every connection's send once.
    pub fn send_data(&mut self)
        requires
            old(self).wf(),
        ensures
            final(self).wf(),
            final(self).messages() == old(self).messages(),
            final(self).connections().len() == old(self).connections().len(),
            forall|i: int| 0 <= i < old(self).connections().len() ==> sent_step(
                #[trigger] old(self).connections()[i],
                final(self).connections()[i],
            ),
    {
        let mut rest: Vec<Connection> = Vec::new();
        std::mem::swap(&mut rest, &mut self.connections);
        let ghost old_cs = rest@;
        let mut done: Vec<Connection> = Vec::new();
        while rest.len() > 0
            invariant
                self.messages_from_user == old(self).messages_from_user,
                old_cs == old(self).connections@,
                done.len() + rest.len() == old_cs.len(),
                forall|j: int| 0 <= j < rest.len() ==> #[trigger] rest@[j] == old_cs[done.len() + j],
                forall|j: int| 0 <= j < done.len() ==> sent_step(#[trigger] old_cs[j], done@[j]),
                forall|j: int| 0 <= j < done.len() ==> (#[trigger] done@[j]).wf(),
                forall|j: int| 0 <= j < old_cs.len() ==> (#[trigger] old_cs[j]).wf(),
            decreases rest.len(),
        {
            let c = rest.remove(0);
            assert(c == old_cs[done.len() as int]);
            let next = c.send();
            done.push(next);
        }
        self.connections = done;
    }

    /// Takes every payload waiting in an established connection, connection by
    /// connection, each in arrival order.
    pub fn gather_commands(&mut self) -> (r: Vec<Vec<u8>>)
        requires
            old(self).wf(),
        ensures
            final(self).wf(),
            final(self).messages() == old(self).messages(),
            final(self).connections().len() == old(self).connections().len(),
            forall|i: int| 0 <= i < old(self).connections().len() ==> drained_conn(
                #[trigger] old(self).connections()[i],
                final(self).connections()[i],
            ),
            r@.map_values(|v: Vec<u8>| v@) == queued_payloads(old(self).connections()),
    {
        let mut messages: Vec<Vec<u8>> = Vec::new();
        let n = self.connections.len();
        let ghost old_cs = self.connections@;
        let mut i: usize = 0;
        proof {
            assert(old_cs.take(0) =~= Seq::<Connection>::empty());
            assert(messages@.map_values(|v: Vec<u8>| v@) =~= Seq::<Seq<u8>>::empty());
        }
        while i < n
            invariant
                0 <= i <= n,
                n == old_cs.len(),
                old_cs == old(self).connections@,
                self.messages_from_user == old(self).messages_from_user,
                self.connections@.len() == n,
                forall|j: int| 0 <= j < n ==> (#[trigger] self.connections@[j]).wf(),
                forall|j: int| 0 <= j < i ==> drained_conn(#[trigger] old_cs[j], self.connections@[j]),
                forall|j: int| i <= j < n ==> #[trigger] self.connections@[j] == old_cs[j],
                messages@.map_values(|v: Vec<u8>| v@) == queued_payloads(old_cs.take(i as int)),
            decreases n - i,
        {
            let ghost start = self.connections@[i as int];
            let ghost base = messages@.map_values(|v: Vec<u8>| v@);
            let ghost frozen = self.connections@;
            let mut more = true;
            while more
                invariant
                    0 <= i < n,
                    n == old_cs.len(),
                    self.messages_from_user == old(self).messages_from_user,
                    self.connections@.len() == n,
                    forall|j: int| 0 <= j < n ==> (#[trigger] self.connections@[j]).wf(),
                    forall|j: int| 0 <= j < n && j != i ==> #[trigger] self.connections@[j] == frozen[j],
                    frozen.len() == n,
                    start == old_cs[i as int],
                    ({
                        let c = self.connections@[i as int];
                        &&& !(start is Established) ==> c == start
                        &&& start matches Connection::Established(e) ==> (c matches Connection::Established(e2) && {
                            &&& e2.user() == e.user()
                            &&& e2.address() == e.address()
                            &&& e2.sender() == e.sender()
                            &&& e2.stream() == e.stream()
                            &&& e2.receiver().history() == e.receiver().history()
                            &&& e.receiver().queue() == messages@.map_values(|v: Vec<u8>| v@).skip(base.len() as int)
                                + e2.receiver().queue()
                            &&& !more ==> e2.receiver().queue() == Seq::<Seq<u8>>::empty()
                        })
                    }),
                    base.len() <= messages@.len(),
                    messages@.map_values(|v: Vec<u8>| v@).take(base.len() as int) == base,
                    base == queued_payloads(old_cs.take(i as int)),
                    !(start is Established) ==> messages@.len() == base.len(),
                decreases established_queue(self.connections@[i as int]).len() + (if more { 1int } else { 0int }),
            {
                let ghost before = messages@.map_values(|v: Vec<u8>| v@);
                match self.connections[i].take_message() {
                    Some(m) => {
                        messages.push(m);
                        proof {
                            assert(messages@.map_values(|v: Vec<u8>| v@) =~= before.push(m@));
                        }
                    },
                    None => {
                        more = false;
                    },
                }
            }
            proof {
                let c = self.connections@[i as int];
                assert(old_cs.take(i + 1).drop_last() =~= old_cs.take(i as int));
                assert(old_cs.take(i + 1).last() == start);
                let now = messages@.map_values(|v: Vec<u8>| v@);
                assert(now =~= base + now.skip(base.len() as int));
                if !(start is Established) {
                    assert(now.skip(base.len() as int) =~= Seq::<Seq<u8>>::empty());
                } else {
                    assert(now.skip(base.len() as int) + Seq::<Seq<u8>>::empty() =~= now.skip(base.len() as int));
                }
            }
            i = i + 1;
        }
        proof {
            assert(old_cs.take(n as int) =~= old_cs);
        }
        messages
    }

    /// Reads each payload as an application envelope and keeps the messages, in
    /// order; a payload that is not a message envelope is dropped.
    pub fn handle_commands(&mut self, commands: Vec<Vec<u8>>)
        requires
            old(self).wf(),
        ensures
            final(self).wf(),
            final(self).connections() == old(self).connections(),
            final(self).messages() == old(self).messages() + decoded_messages(commands@.map_values(|v: Vec<u8>| v@)),
    {
        let ghost cmds = commands@.map_values(|v: Vec<u8>| v@);
        let mut i: usize = 0;
        proof {
            assert(cmds.take(0) =~= Seq::<Seq<u8>>::empty());
            assert(old(self).messages() + Seq::<(Seq<char>, Seq<char>)>::empty() =~= old(self).messages());
        }
        while i < commands.len()
            invariant
                0 <= i <= commands.len(),
                cmds == commands@.map_values(|v: Vec<u8>| v@),
                self.connections == old(self).connections,
                self.messages() == old(self).messages() + decoded_messages(cmds.take(i as int)),
            decreases commands.len() - i,
        {
            let ghost before = self.messages();
            let decoded = decode_message(commands[i].as_slice());
            proof {
                assert(cmds.take(i + 1).drop_last() =~= cmds.take(i as int));
                assert(cmds.take(i + 1).last() == commands@[i as int]@);
            }
            match decoded {
                Some(m) => {
                    let ghost mv = m.view();
                    self.messages_from_user.push(m);
                    proof {
                        assert(self.messages() =~= before.push(mv));
                    }
                },
                None => {},
            }
            i = i + 1;
        }
        proof {
            assert(cmds.take(commands.len() as int) =~= cmds);
            assert(self.connections() == old(self).connections());
        }
    }

    /// Queues the envelope of every message of this tick on every established
    /// connection, the sender's own included, in the order the messages were
    /// collected; the messages are then cleared.
    pub fn send_messages(&mut self)
        requires
            old(self).wf(),
        ensures
            final(self).wf(),
            final(self).messages() == Seq::<(Seq<char>, Seq<char>)>::empty(),
            final(self).connections().len() == old(self).connections().len(),
            forall|i: int| 0 <= i < old(self).connections().len() ==> fanned_conn(
                #[trigger] old(self).connections()[i],
                final(self).connections()[i],
                envelope_payloads(old(self).messages()),
            ),
    {
        let ghost ms = self.messages();
        let mut envelopes: Vec<String> = Vec::new();
        let mut k: usize = 0;
        while k < self.messages_from_user.len()
            invariant
                0 <= k <= self.messages_from_user.len(),
                self.messages() == ms,
                envelopes.len() == k,
                forall|j: int| 0 <= j < k ==> encode_utf8((#[trigger] envelopes@[j])@) == envelope_payloads(ms)[j],
            decreases self.messages_from_user.len() - k,
        {
            let e = encode_message(&self.messages_from_user[k]);
            envelopes.push(e);
            k = k + 1;
        }
        let ghost extra = envelope_payloads(ms);
        let n = self.connections.len();
        let ghost old_cs = self.connections@;
        let mut i: usize = 0;
        while i < n
            invariant
                0 <= i <= n,
                n == old_cs.len(),
                old_cs == old(self).connections@,
                self.messages() == ms,
                extra.len() == envelopes.len(),
                forall|j: int| 0 <= j < envelopes.len() ==> encode_utf8((#[trigger] envelopes@[j])@) == extra[j],
                self.connections@.len() == n,
                forall|j: int| 0 <= j < n ==> (#[trigger] self.connections@[j]).wf(),
                forall|j: int| 0 <= j < i ==> fanned_conn(#[trigger] old_cs[j], self.connections@[j], extra),
                forall|j: int| i <= j < n ==> #[trigger] self.connections@[j] == old_cs[j],
            decreases n - i,
        {
            let ghost frozen = self.connections@;
            let ghost start = old_cs[i as int];
            let mut m: usize = 0;
            proof {
                assert(extra.take(0) =~= Seq::<Seq<u8>>::empty());
                if let Connection::Established(e) = start {
                    assert(e.sender().pending() + Seq::<Seq<u8>>::empty() =~= e.sender().pending());
                }
            }
            while m < envelopes.len()
                invariant
                    0 <= i < n,
                    0 <= m <= envelopes.len(),
                    extra.len() == envelopes.len(),
                    forall|j: int| 0 <= j < envelopes.len() ==> encode_utf8((#[trigger] envelopes@[j])@) == extra[j],
                    self.messages() == ms,
                    self.connections@.len() == n,
                    frozen.len() == n,
                    forall|j: int| 0 <= j < n ==> (#[trigger] self.connections@[j]).wf(),
                    forall|j: int| 0 <= j < n && j != i ==> #[trigger] self.connections@[j] == frozen[j],
                    fanned_conn(start, self.connections@[i as int], extra.take(m as int)),
                decreases envelopes.len() - m,
            {
                let text = envelopes[m].clone();
                self.connections[i].enqueue_message(text);
                proof {
                    assert(extra.take(m + 1) =~= extra.take(m as int).push(extra[m as int]));
                    if let Connection::Established(e) = start {
                        assert(e.sender().pending() + extra.take(m + 1) =~= (e.sender().pending() + extra.take(
                            m as int,
                        )).push(extra[m as int]));
                    }
                }
                m = m + 1;
            }
            proof {
                assert(extra.take(envelopes.len() as int) =~= extra);
            }
            i = i + 1;
        }
        self.messages_from_user.clear();
        proof {
            assert(self.messages() =~= Seq::<(Seq<char>, Seq<char>)>::empty());
        }
    }

    /// Drops the connections that have ended; the flags say, for each connection
    /// before the call, whether it was dropped.
    pub fn remove_closed_connections(&mut self) -> (r: Vec<bool>)
        requires
            old(self).wf(),
        ensures
            final(self).wf(),
            final(self).messages() == old(self).messages(),
            final(self).connections() == old(self).connections().filter(|x: Connection| !is_closed_conn(x)),
            forall|i: int| 0 <= i < final(self).connections().len() ==> !(#[trigger] final(self).connections()[i] is Closed),
            r@.len() == old(self).connections().len(),
            forall|i: int| 0 <= i < r@.len() ==> #[trigger] r@[i] == old(self).connections()[i] is Closed,
    {
        let mut rest: Vec<Connection> = Vec::new();
        std::mem::swap(&mut rest, &mut self.connections);
        let ghost old_cs = rest@;
        let mut kept: Vec<Connection> = Vec::new();
        let mut flags: Vec<bool> = Vec::new();
        proof {
            assert(old_cs.take(0) =~= Seq::<Connection>::empty());
            reveal(Seq::filter);
        }
        while rest.len() > 0
            invariant
                self.messages_from_user == old(self).messages_from_user,
                old_cs == old(self).connections@,
                flags.len() + rest.len() == old_cs.len(),
                forall|j: int| 0 <= j < rest.len() ==> #[trigger] rest@[j] == old_cs[flags.len() + j],
                forall|j: int| 0 <= j < old_cs.len() ==> (#[trigger] old_cs[j]).wf(),
                kept@ == old_cs.take(flags.len() as int).filter(|x: Connection| !is_closed_conn(x)),
                forall|j: int| 0 <= j < kept.len() ==> !(#[trigger] kept@[j] is Closed) && kept@[j].wf(),
                forall|j: int| 0 <= j < flags.len() ==> #[trigger] flags@[j] == old_cs[j] is Closed,
            decreases rest.len(),
        {
            let c = rest.remove(0);
            let ghost t = flags.len() as int;
            proof {
                assert(c == old_cs[t]);
                assert(old_cs.take(t + 1).drop_last() =~= old_cs.take(t));
                assert(old_cs.take(t + 1).last() == c);
                reveal(Seq::filter);
            }
            let closed = c.is_closed();
            flags.push(closed);
            let ghost kept_before = kept@;
            if !closed {
                kept.push(c);
            }
            proof {
                reveal(Seq::filter);
                let s1 = old_cs.take(t + 1);
                assert(s1.filter(|x: Connection| !is_closed_conn(x)) == (if !is_closed_conn(s1.last()) {
                    s1.drop_last().filter(|x: Connection| !is_closed_conn(x)).push(s1.last())
                } else {
                    s1.drop_last().filter(|x: Connection| !is_closed_conn(x))
                }));
            }
        }
        proof {
            assert(old_cs.take(old_cs.len() as int) =~= old_cs);
        }
        self.connections = kept;
        flags
    }

    /// Adds a connection just accepted from `address`, waiting for its login
    /// envelope; its index is returned.
    pub fn accept_connection(&mut self, address: String) -> (r: usize)
        requires
            old(self).wf(),
        ensures
            final(self).wf(),
            final(self).messages() == old(self).messages(),
            r == old(self).connections().len(),
            final(self).connections().len() == old(self).connections().len() + 1,
            final(self).connections().take(r as int) == old(self).connections(),
            final(self).connections()[r as int] matches Connection::HandShake(h) && h.consumed() == Seq::<u8>::empty()
                && h.address() == address@,
    {
        let c = Connection::new(address);
        let r = self.connections.len();
        self.connections.push(c);
        proof {
            assert(self.connections@.take(r as int) =~= old(self).connections@);
            assert forall|i: int| 0 <= i < self.connections().len() implies (#[trigger] self.connections()[i]).wf() by {
                if i < r {
                    assert(self.connections()[i] == old(self).connections()[i]);
                }
            }
        }
        r
    }

    /// One tick: drives every connection's receive, collects the messages that
    /// arrived, queues each of them on every established connection, drives every
    /// connection's send, and drops the connections that have ended. The flags
    /// say, for each connection before the tick, whether it was dropped.
    pub fn tick(&mut self) -> (r: Vec<bool>)
        requires
            old(self).wf(),
        ensures
            final(self).wf(),
            final(self).messages() == Seq::<(Seq<char>, Seq<char>)>::empty(),
            r@.len() == old(self).connections().len(),
            forall|i: int| 0 <= i < final(self).connections().len() ==> !(#[trigger] final(self).connections()[i] is Closed),
            final(self).connections().len() == r@.filter(|b: bool| !b).len(),
            exists|received: Seq<Connection>, drained: Seq<Connection>, fanned: Seq<Connection>, sent: Seq<Connection>|
                #[trigger] tick_steps(
                old(self).messages(),
                old(self).connections(),
                received,
                drained,
                fanned,
                sent,
                final(self).connections(),
            ),
    {
        self.receive_data();
        let ghost received = self.connections();
        let commands = self.gather_commands();
        let ghost drained = self.connections();
        self.handle_commands(commands);
        self.send_messages();
        let ghost fanned = self.connections();
        self.send_data();
        let ghost sent = self.connections();
        let r = self.remove_closed_connections();
        proof {
            lemma_filter_len_matches(sent, r@);
            assert(tick_steps(old(self).messages(), old(self).connections(), received, drained, fanned, sent, self.connections()));
        }
        r
    }

    /// Bytes that arrived from the peer of connection `i`.
    pub fn deliver(&mut self, i: usize, bytes: &[u8])
        requires
            old(self).wf(),
            i < old(self).connections().len(),
        ensures
            final(self).wf(),
            final(self).messages() == old(self).messages(),
            final(self).connections().len() == old(self).connections().len(),
            forall|j: int| 0 <= j < old(self).connections().len() && j != i ==> #[trigger] final(self).connections()[j]
                == old(self).connections()[j],
            same_but_stream(old(self).connections()[i as int], final(self).connections()[i as int]),
            !(old(self).connections()[i as int] is Closed) ==> final(self).connections()[i as int].stream().unread()
                == old(self).connections()[i as int].stream().unread() + bytes@,
    {
        self.connections[i].deliver(bytes);
    }

    /// The peer of connection `i` closed its side.
    pub fn close_stream(&mut self, i: usize)
        requires
            old(self).wf(),
            i < old(self).connections().len(),
        ensures
            final(self).wf(),
            final(self).messages() == old(self).messages(),
            final(self).connections().len() == old(self).connections().len(),
            forall|j: int| 0 <= j < old(self).connections().len() && j != i ==> #[trigger] final(self).connections()[j]
                == old(self).connections()[j],
            same_but_stream(old(self).connections()[i as int], final(self).connections()[i as int]),
            !(old(self).connections()[i as int] is Closed) ==> final(self).connections()[i as int].stream().peer_closed(),
    {
        self.connections[i].close_stream();
    }

    /// The stream of connection `i` reported an error.
    pub fn fail_stream(&mut self, i: usize)
        requires
            old(self).wf(),
            i < old(self).connections().len(),
        ensures
            final(self).wf(),
            final(self).messages() == old(self).messages(),
            final(self).connections().len() == old(self).connections().len(),
            forall|j: int| 0 <= j < old(self).connections().len() && j != i ==> #[trigger] final(self).connections()[j]
                == old(self).connections()[j],
            same_but_stream(old(self).connections()[i as int], final(self).connections()[i as int]),
            !(old(self).connections()[i as int] is Closed) ==> final(self).connections()[i as int].stream().failed(),
    {
        self.connections[i].fail_stream();
    }

    /// Sets how many more bytes connection `i` may write before it would block.
    pub fn set_room(&mut self, i: usize, room: usize)
        requires
            old(self).wf(),
            i < old(self).connections().len(),
        ensures
            final(self).wf(),
            final(self).messages() == old(self).messages(),
            final(self).connections().len() == old(self).connections().len(),
            forall|j: int| 0 <= j < old(self).connections().len() && j != i ==> #[trigger] final(self).connections()[j]
                == old(self).connections()[j],
            same_but_stream(old(self).connections()[i as int], final(self).connections()[i as int]),
            !(old(self).connections()[i as int] is Closed) ==> final(self).connections()[i as int].stream().room()
                == room,
    {
        self.connections[i].set_room(room);
    }

    /// Hands the bytes written on connection `i` over to the transport.
    pub fn take_written(&mut self, i: usize) -> (r: Vec<u8>)
        requires
            old(self).wf(),
            i < old(self).connections().len(),
        ensures
            final(self).wf(),
            final(self).messages() == old(self).messages(),
            final(self).connections().len() == old(self).connections().len(),
            forall|j: int| 0 <= j < old(self).connections().len() && j != i ==> #[trigger] final(self).connections()[j]
                == old(self).connections()[j],
            same_but_stream(old(self).connections()[i as int], final(self).connections()[i as int]),
            old(self).connections()[i as int] is Closed ==> r@ == Seq::<u8>::empty(),
            !(old(self).connections()[i as int] is Closed) ==> {
                &&& r@ == old(self).connections()[i as int].stream().written()
                &&& final(self).connections()[i as int].stream().written() == Seq::<u8>::empty()
            },
    {
        self.connections[i].take_written()
    }

    /// The peer of connection `i` has logged in.
    pub fn is_established(&self, i: usize) -> (r: bool)
        requires
            i < self.connections().len(),
        ensures
            r == (self.connections()[i as int] is Established),
    {
        self.connections[i].is_established()
    }
}

/// A connection that its receive closes in a tick, such as one whose first frame
/// is not a login envelope, is left closed by the later steps and is not among
/// the connections after the tick, all of which are open.
pub proof fn lemma_closed_in_tick_is_dropped(
    earlier: Seq<(Seq<char>, Seq<char>)>,
    before: Seq<Connection>,
    received: Seq<Connection>,
    drained: Seq<Connection>,
    fanned: Seq<Connection>,
    sent: Seq<Connection>,
    after: Seq<Connection>,
    i: int,
)
    requires
        tick_steps(earlier, before, received, drained, fanned, sent, after),
        0 <= i < before.len(),
        received[i] is Closed,
    ensures
        sent[i] == received[i],
        forall|j: int| 0 <= j < after.len() ==> !(#[trigger] after[j] is Closed),
{
    assert(drained_conn(received[i], drained[i]));
    assert(fanned_conn(drained[i], fanned[i], envelope_payloads(earlier + decoded_messages(queued_payloads(received)))));
    assert(sent_step(fanned[i], sent[i]));
    assert forall|j: int| 0 <= j < after.len() implies !(#[trigger] after[j] is Closed) by {
        sent.lemma_filter_pred(|x: Connection| !is_closed_conn(x), j);
    }
}

/// Dropping the entries flagged `true` leaves as many entries as there are
/// `false` flags.
proof fn lemma_filter_len_matches(cs: Seq<Connection>, flags: Seq<bool>)
    requires
        flags.len() == cs.len(),
        forall|i: int| 0 <= i < flags.len() ==> #[trigger] flags[i] == cs[i] is Closed,
    ensures
        cs.filter(|x: Connection| !is_closed_conn(x)).len() == flags.filter(|b: bool| !b).len(),
    decreases cs.len(),
{
    reveal(Seq::filter);
    if cs.len() > 0 {
        let c2 = cs.drop_last();
        let f2 = flags.drop_last();
        assert forall|i: int| 0 <= i < f2.len() implies #[trigger] f2[i] == c2[i] is Closed by {
            assert(f2[i] == flags[i]);
            assert(c2[i] == cs[i]);
        }
        lemma_filter_len_matches(c2, f2);
        assert(flags.last() == cs.last() is Closed);
    }
}

} // verus!
