//! A connection: a byte stream with a receiver and a sender on top, moving from
//! the handshake to an established session, and to closed on any failure.
use vstd::prelude::*;
use vstd::slice::slice_to_vec;
use vstd::utf8::encode_utf8;

use crate::envelope::decode_login;
use crate::envelope::login_name;
use crate::incoming_packet::partial_frame;
use crate::incoming_packet::Packet as IncomingPacket;
use crate::incoming_packet::PacketError as IncomingPacketError;
use crate::outgoing_packet::PacketError as OutgoingPacketError;
use crate::packet_sender::rejection;
use crate::packet_receiver::PacketReceiver;
use crate::packet_sender::PacketSender;
use crate::stream::ByteStream;
use crate::wire::declared_len;
use crate::wire::frames_of;
use crate::wire::has_invalid_header;
use crate::wire::leftover_of;
use crate::wire::payloads_in;
use crate::wire::valid_len;
use crate::wire::valid_payload;

verus! {

/// Where a peer connects from.
pub struct ConnectionInfo {
    pub address: String,
}

/// Who a peer declared itself to be.
pub struct LoginInfo {
    pub user: String,
}

/// Why a connection ended.
#[derive(Debug, Clone, Copy, PartialEq, Eq, Structural)]
pub enum ConnectionClosedReason {
    /// The first frame was not a login envelope.
    InvalidHandshakeMessage,
    /// Writing a frame failed.
    PacketSendError(OutgoingPacketError),
    /// Reading a frame failed.
    PacketReceiveError(IncomingPacketError),
}

/// A connection that has ended.
pub struct ClosedConnection {
    reason: ConnectionClosedReason,
}

impl ClosedConnection {
    pub closed spec fn spec_reason(&self) -> ConnectionClosedReason {
        self.reason
    }

    /// Why the connection ended.
    pub fn reason(&self) -> (r: ConnectionClosedReason)
        ensures
            r == self.spec_reason(),
    {
        self.reason
    }
}

/// A connection whose first frame, the login envelope, has not arrived yet.
pub struct HandshakeState {
    packet: IncomingPacket,
    stream: ByteStream,
    address: String,
}

/// A connection whose peer has logged in.
pub struct EstablishedConnection {
    connection_info: ConnectionInfo,
    login_info: LoginInfo,
    stream: ByteStream,
    sender: PacketSender,
    receiver: PacketReceiver,
}

/// A connection in one of its three states.
pub enum Connection {
    HandShake(HandshakeState),
    Established(EstablishedConnection),
    Closed(ClosedConnection),
}

impl HandshakeState {
    pub closed spec fn wf(&self) -> bool {
        &&& self.packet.in_flight()
        &&& self.packet.wf()
        &&& partial_frame(self.packet.consumed())
        &&& self.stream.wf()
    }

    /// The bytes of the login frame read so far.
    pub closed spec fn consumed(&self) -> Seq<u8> {
        self.packet.consumed()
    }

    pub closed spec fn stream(&self) -> ByteStream {
        self.stream
    }

    pub closed spec fn packet(&self) -> IncomingPacket {
        self.packet
    }

    pub closed spec fn address(&self) -> Seq<char> {
        self.address@
    }
}

/// What reading the login frame leads to: `h` is the handshake before, `r` the
/// connection after.
pub open spec fn handshake_received(h: HandshakeState, r: Connection) -> bool {
    let c = h.consumed();
    let u = h.stream().unread();
    let s = c + u;
    let failed = h.stream().failed();
    let closed = h.stream().peer_closed();
    &&& partial_frame(s) && failed ==> r.closed_reason() == Some(
        ConnectionClosedReason::PacketReceiveError(IncomingPacketError::StreamError),
    )
    &&& partial_frame(s) && !failed && closed ==> r.closed_reason() == Some(
        ConnectionClosedReason::PacketReceiveError(IncomingPacketError::StreamClosed),
    )
    &&& partial_frame(s) && !failed && !closed ==> (r matches Connection::HandShake(next)
        && next.consumed() == s && next.address() == h.address() && next.stream().unread().len() == 0
        && next.stream().written() == h.stream().written() && next.stream().room() == h.stream().room()
        && !next.stream().failed() && !next.stream().peer_closed())
    &&& !partial_frame(s) && !valid_len(declared_len(s)) ==> r.closed_reason() == Some(
        ConnectionClosedReason::PacketReceiveError(IncomingPacketError::SizeTooBig(declared_len(s) as usize)),
    )
    &&& !partial_frame(s) && valid_len(declared_len(s)) ==> {
        let payload = s.subrange(4, 4 + declared_len(s) as int);
        &&& login_name(payload) is None ==> r.closed_reason() == Some(
            ConnectionClosedReason::InvalidHandshakeMessage,
        )
        &&& login_name(payload) matches Some(user) ==> (r matches Connection::Established(e) && {
            &&& e.user() == user
            &&& e.address() == h.address()
            &&& e.stream().unread() == u.skip(4 + declared_len(s) - c.len() as int)
            &&& e.stream().written() == h.stream().written()
            &&& e.stream().failed() == failed
            &&& e.stream().peer_closed() == closed
            &&& e.stream().room() == h.stream().room()
            &&& e.receiver().history() == Seq::<u8>::empty()
            &&& e.receiver().popped() == Seq::<Seq<u8>>::empty()
            &&& e.receiver().queue() == Seq::<Seq<u8>>::empty()
            &&& e.sender().done() == Seq::<Seq<u8>>::empty()
            &&& e.sender().pending() == Seq::<Seq<u8>>::empty()
            &&& e.sender().transmitted() == Seq::<u8>::empty()
        })
    }
}

impl HandshakeState {
    /// Reads as much of the login frame as the stream holds. A complete frame that
    /// declares a user name establishes the connection; any other frame, and any
    /// failure to read one, closes it. Bytes after the login frame stay in the
    /// stream for the session.
    pub fn receive(self) -> (r: Connection)
        requires
            self.wf(),
        ensures
            r.wf(),
            handshake_received(self, r),
    {
        let HandshakeState { packet, mut stream, address } = self;
        let ghost c = packet.consumed();
        let ghost u = stream.unread();
        let next = packet.advance_until_would_block(&mut stream);
        let ghost k = u.len() - stream.unread().len();
        proof {
            let s = c + u;
            let seen = c + u.take(k);
            if !partial_frame(s) {
                assert(seen.len() >= 4);
                assert(seen.take(4) =~= s.take(4));
                assert(seen =~= s.take(seen.len() as int));
                if valid_len(declared_len(s)) {
                    assert(seen.skip(4) =~= s.subrange(4, 4 + declared_len(s) as int));
                }
            } else {
                assert(u.take(u.len() as int) =~= u);
            }
        }
        match next {
            IncomingPacket::Received(data) => {
                match decode_login(data.as_slice()) {
                    Some(user) => {
                        Connection::Established(EstablishedConnection {
                            connection_info: ConnectionInfo { address },
                            login_info: LoginInfo { user },
                            stream,
                            sender: PacketSender::new(),
                            receiver: PacketReceiver::new(),
                        })
                    },
                    None => Connection::Closed(ClosedConnection { reason: ConnectionClosedReason::InvalidHandshakeMessage }),
                }
            },
            IncomingPacket::Failed(e) => Connection::Closed(ClosedConnection { reason: ConnectionClosedReason::PacketReceiveError(e) }),
            other => Connection::HandShake(HandshakeState { packet: other, stream, address }),
        }
    }
}

impl EstablishedConnection {
    pub closed spec fn wf(&self) -> bool {
        &&& self.stream.wf()
        &&& self.sender.wf()
        &&& self.receiver.wf()
        &&& self.receiver.failure() is None
    }

    pub closed spec fn user(&self) -> Seq<char> {
        self.login_info.user@
    }

    pub closed spec fn address(&self) -> Seq<char> {
        self.connection_info.address@
    }

    pub closed spec fn stream(&self) -> ByteStream {
        self.stream
    }

    pub closed spec fn sender(&self) -> PacketSender {
        self.sender
    }

    pub closed spec fn receiver(&self) -> PacketReceiver {
        self.receiver
    }

    /// The name the peer logged in with.
    pub fn user_name(&self) -> (r: &String)
        ensures
            r@ == self.user(),
    {
        &self.login_info.user
    }

    /// Where the peer connects from.
    pub fn peer_address(&self) -> (r: &String)
        ensures
            r@ == self.address(),
    {
        &self.connection_info.address
    }
}

/// What reading from an established connection leads to: `e` is the session
/// before, `r` the connection after.
pub open spec fn session_received(e: EstablishedConnection, r: Connection) -> bool {
    let h = e.receiver().history() + e.stream().unread();
    let failed = e.stream().failed();
    let closed = e.stream().peer_closed();
    &&& has_invalid_header(h) ==> r.closed_reason() == Some(
        ConnectionClosedReason::PacketReceiveError(IncomingPacketError::SizeTooBig(declared_len(leftover_of(h)) as usize)),
    )
    &&& !has_invalid_header(h) && failed ==> r.closed_reason() == Some(
        ConnectionClosedReason::PacketReceiveError(IncomingPacketError::StreamError),
    )
    &&& !has_invalid_header(h) && !failed && closed ==> r.closed_reason() == Some(
        ConnectionClosedReason::PacketReceiveError(IncomingPacketError::StreamClosed),
    )
    &&& !has_invalid_header(h) && !failed && !closed ==> (r matches Connection::Established(next) && {
        &&& next.user() == e.user()
        &&& next.address() == e.address()
        &&& next.sender() == e.sender()
        &&& next.receiver().history() == h
        &&& next.receiver().popped() == e.receiver().popped()
        &&& next.receiver().popped() + next.receiver().queue() == payloads_in(h)
        &&& next.stream().unread() == Seq::<u8>::empty()
        &&& next.stream().written() == e.stream().written()
        &&& next.stream().room() == e.stream().room()
        &&& !next.stream().failed() && !next.stream().peer_closed()
    })
}

/// What writing to an established connection leads to: `e` is the session
/// before, `r` the connection after.
pub open spec fn session_sent(e: EstablishedConnection, r: Connection) -> bool {
    let pend = e.sender().pending();
    let failed = e.stream().failed();
    &&& r is Closed ==> (r.closed_reason() matches Some(ConnectionClosedReason::PacketSendError(_)))
    &&& pend.len() > 0 && !valid_payload(pend[0]) ==> r.closed_reason() == Some(
        ConnectionClosedReason::PacketSendError(rejection(pend[0])),
    )
    &&& failed && pend.len() > 0 && valid_payload(pend[0]) ==> r.closed_reason() == Some(
        ConnectionClosedReason::PacketSendError(OutgoingPacketError::StreamError),
    )
    &&& r.closed_reason() == Some(ConnectionClosedReason::PacketSendError(OutgoingPacketError::StreamError))
        ==> failed
    &&& r.closed_reason() == Some(ConnectionClosedReason::PacketSendError(OutgoingPacketError::ZeroSizedPacket))
        || (r.closed_reason() matches Some(ConnectionClosedReason::PacketSendError(OutgoingPacketError::SizeTooBig(_))))
        ==> exists|i: int| 0 <= i < pend.len() && !valid_payload(#[trigger] pend[i])
    &&& r is Established ==> session_wrote(e, r->Established_0)
    &&& pend.len() == 0 ==> r is Established && r->Established_0.sender().transmitted() == e.sender().transmitted()
    &&& !failed && (forall|i: int| 0 <= i < pend.len() ==> valid_payload(#[trigger] pend[i])) ==> r is Established
}

/// What a successful send leaves: the session `next` is `e` after writing, in
/// queue order, as much of the frames of its pending payloads as the stream had
/// room for.
pub open spec fn session_wrote(e: EstablishedConnection, next: EstablishedConnection) -> bool {
    let t0 = e.sender().transmitted();
    let t1 = next.sender().transmitted();
    &&& next.user() == e.user()
    &&& next.address() == e.address()
    &&& next.receiver() == e.receiver()
    &&& next.sender().done() + next.sender().pending() == e.sender().done() + e.sender().pending()
    &&& next.sender().pending().len() == 0 || next.stream().room() == 0
    &&& next.sender().pending().len() == 0 ==> t1 == frames_of(next.sender().done())
    &&& t0.len() <= t1.len()
    &&& t1.take(t0.len() as int) == t0
    &&& next.stream().written() == e.stream().written() + t1.skip(t0.len() as int)
    &&& next.stream().room() == e.stream().room() - (t1.len() - t0.len())
    &&& next.stream().unread() == e.stream().unread()
    &&& next.stream().peer_closed() == e.stream().peer_closed()
    &&& next.stream().failed() == e.stream().failed()
}

impl EstablishedConnection {
    /// Reads every frame the stream holds; the payloads wait in the receiver. A
    /// failure closes the connection.
    pub fn receive(self) -> (r: Connection)
        requires
            self.wf(),
        ensures
            r.wf(),
            session_received(self, r),
    {
        let mut this = self;
        let ghost u = this.stream.unread();
        let ghost hist0 = this.receiver.history();
        match this.receiver.advance(&mut this.stream) {
            Ok(()) => {
                proof {
                    let k = u.len() - this.stream.unread().len();
                    if !has_invalid_header(hist0 + u) {
                        assert((hist0 + u).len() == (hist0 + u.take(k)).len());
                        assert(this.stream.unread() =~= Seq::<u8>::empty());
                    }
                }
                Connection::Established(this)
            },
            Err(err) => Connection::Closed(ClosedConnection { reason: ConnectionClosedReason::PacketReceiveError(err) }),
        }
    }

    /// Writes the queued payloads until all are written or the stream would
    /// block. A failure closes the connection.
    #[verifier::spinoff_prover]
    pub fn send(self) -> (r: Connection)
        requires
            self.wf(),
        ensures
            r.wf(),
            session_sent(self, r),
    {
        let ghost e = self;
        let mut this = self;
        let ghost pend = this.sender.pending();
        let ghost d0 = this.sender.done();
        match this.sender.advance(&mut this.stream) {
            Ok(()) => Connection::Established(this),
            Err(err) => {
                proof {
                    if err != OutgoingPacketError::StreamError {
                        let j = this.sender.done().len() as int;
                        assert((d0 + pend)[j] == pend[j - d0.len()]);
                    }
                }
                Connection::Closed(ClosedConnection { reason: ConnectionClosedReason::PacketSendError(err) })
            },
        }
    }

    /// Hands out the oldest payload received, if any.
    pub fn take_message(&mut self) -> (r: Option<Vec<u8>>)
        requires
            old(self).wf(),
        ensures
            final(self).wf(),
            final(self).user() == old(self).user(),
            final(self).address() == old(self).address(),
            final(self).sender() == old(self).sender(),
            final(self).stream() == old(self).stream(),
            final(self).receiver().history() == old(self).receiver().history(),
            final(self).receiver().failure() == old(self).receiver().failure(),
            old(self).receiver().queue().len() == 0 ==> r is None && final(self).receiver().queue() == old(
                self,
            ).receiver().queue(),
            old(self).receiver().queue().len() > 0 ==> {
                &&& r matches Some(d) && d@ == old(self).receiver().queue()[0]
                &&& final(self).receiver().queue() == old(self).receiver().queue().drop_first()
            },
    {
        self.receiver.pop_packet()
    }

    /// Queues a text to be sent as one payload: its UTF-8 bytes.
    pub fn enqueue_message(&mut self, message: String)
        requires
            old(self).wf(),
        ensures
            final(self).wf(),
            final(self).user() == old(self).user(),
            final(self).address() == old(self).address(),
            final(self).receiver() == old(self).receiver(),
            final(self).stream() == old(self).stream(),
            final(self).sender().done() == old(self).sender().done(),
            final(self).sender().transmitted() == old(self).sender().transmitted(),
            final(self).sender().pending() == old(self).sender().pending().push(encode_utf8(message@)),
    {
        let bytes = slice_to_vec(message.as_str().as_bytes());
        self.sender.add_to_send_queue(bytes);
    }
}

/// What `Connection::receive` leads to.
pub open spec fn received_step(a: Connection, b: Connection) -> bool {
    &&& a matches Connection::HandShake(h) ==> handshake_received(h, b)
    &&& a matches Connection::Established(e) ==> session_received(e, b)
    &&& a is Closed ==> b == a
}

/// What `Connection::send` leads to.
pub open spec fn sent_step(a: Connection, b: Connection) -> bool {
    &&& a matches Connection::Established(e) ==> session_sent(e, b)
    &&& !(a is Established) ==> b == a
}

/// `a` and `b` are the same connection, but for their streams.
pub open spec fn same_but_stream(a: Connection, b: Connection) -> bool {
    match (a, b) {
        (Connection::HandShake(x), Connection::HandShake(y)) => x.packet() == y.packet() && x.address() == y.address(),
        (Connection::Established(x), Connection::Established(y)) => {
            &&& x.user() == y.user()
            &&& x.address() == y.address()
            &&& x.sender() == y.sender()
            &&& x.receiver() == y.receiver()
        },
        (Connection::Closed(x), Connection::Closed(y)) => x == y,
        _ => false,
    }
}

impl Connection {
    pub open spec fn wf(&self) -> bool {
        match self {
            Connection::HandShake(h) => h.wf(),
            Connection::Established(e) => e.wf(),
            Connection::Closed(_) => true,
        }
    }

    /// Why the connection ended, if it has.
    pub open spec fn closed_reason(&self) -> Option<ConnectionClosedReason> {
        match self {
            Connection::Closed(c) => Some(c.spec_reason()),
            _ => None,
        }
    }

    /// The stream of an open connection.
    pub open spec fn stream(&self) -> ByteStream {
        match self {
            Connection::HandShake(h) => h.stream(),
            Connection::Established(e) => e.stream(),
            Connection::Closed(_) => arbitrary(),
        }
    }

    /// A connection just accepted from `address`, waiting for the login envelope.
    pub fn new(address: String) -> (r: Connection)
        ensures
            r.wf(),
            r matches Connection::HandShake(h) && h.consumed() == Seq::<u8>::empty() && h.address() == address@,
            r.stream().unread() == Seq::<u8>::empty(),
            !r.stream().peer_closed() && !r.stream().failed(),
            r.stream().written() == Seq::<u8>::empty(),
    {
        let packet = IncomingPacket::new();
        proof {
            packet.lemma_in_flight_partial();
        }
        Connection::HandShake(HandshakeState { packet, stream: ByteStream::new(), address })
    }

    /// Reads from the stream: the login frame during the handshake, every frame
    /// it holds once established; a closed connection stays as it is.
    pub fn receive(self) -> (r: Connection)
        requires
            self.wf(),
        ensures
            r.wf(),
            received_step(self, r),
    {
        match self {
            Connection::HandShake(state) => state.receive(),
            Connection::Established(state) => state.receive(),
            Connection::Closed(state) => Connection::Closed(state),
        }
    }

    /// Writes the queued payloads of an established connection; nothing is sent
    /// during the handshake or once closed.
    pub fn send(self) -> (r: Connection)
        requires
            self.wf(),
        ensures
            r.wf(),
            sent_step(self, r),
    {
        match self {
            Connection::HandShake(state) => Connection::HandShake(state),
            Connection::Established(state) => state.send(),
            Connection::Closed(state) => Connection::Closed(state),
        }
    }

    /// Queues a text on an established connection; otherwise it is dropped.
    pub fn enqueue_message(&mut self, message: String)
        requires
            old(self).wf(),
        ensures
            final(self).wf(),
            !(*old(self) is Established) ==> *final(self) == *old(self),
            *old(self) matches Connection::Established(e) ==> (*final(self) matches Connection::Established(e2) && {
                &&& e2.user() == e.user()
                &&& e2.address() == e.address()
                &&& e2.receiver() == e.receiver()
                &&& e2.stream() == e.stream()
                &&& e2.sender().done() == e.sender().done()
                &&& e2.sender().transmitted() == e.sender().transmitted()
                &&& e2.sender().pending() == e.sender().pending().push(encode_utf8(message@))
            }),
    {
        match self {
            Connection::Established(state) => state.enqueue_message(message),
            _ => {},
        }
    }

    /// Hands out the oldest payload an established connection has received;
    /// `None` otherwise.
    pub fn take_message(&mut self) -> (r: Option<Vec<u8>>)
        requires
            old(self).wf(),
        ensures
            final(self).wf(),
            !(*old(self) is Established) ==> r is None && *final(self) == *old(self),
            *old(self) matches Connection::Established(e) ==> (*final(self) matches Connection::Established(e2) && {
                &&& e2.user() == e.user()
                &&& e2.address() == e.address()
                &&& e2.sender() == e.sender()
                &&& e2.stream() == e.stream()
                &&& e2.receiver().history() == e.receiver().history()
                &&& e2.receiver().failure() == e.receiver().failure()
                &&& e.receiver().queue().len() == 0 ==> r is None && e2.receiver().queue() == e.receiver().queue()
                &&& e.receiver().queue().len() > 0 ==> (r matches Some(d) && d@ == e.receiver().queue()[0])
                    && e2.receiver().queue() == e.receiver().queue().drop_first()
            }),
    {
        match self {
            Connection::Established(state) => state.take_message(),
            _ => None,
        }
    }

    /// Bytes that arrived from the peer, for an open connection.
    pub fn deliver(&mut self, bytes: &[u8])
        requires
            old(self).wf(),
        ensures
            final(self).wf(),
            same_but_stream(*old(self), *final(self)),
            !(*old(self) is Closed) ==> {
                &&& final(self).stream().unread() == old(self).stream().unread() + bytes@
                &&& final(self).stream().written() == old(self).stream().written()
                &&& final(self).stream().failed() == old(self).stream().failed()
                &&& final(self).stream().peer_closed() == old(self).stream().peer_closed()
                &&& final(self).stream().room() == old(self).stream().room()
            },
    {
        match self {
            Connection::HandShake(state) => state.stream.deliver(bytes),
            Connection::Established(state) => state.stream.deliver(bytes),
            Connection::Closed(_) => {},
        }
    }

    /// The peer closed its side of the stream.
    pub fn close_stream(&mut self)
        requires
            old(self).wf(),
        ensures
            final(self).wf(),
            same_but_stream(*old(self), *final(self)),
            !(*old(self) is Closed) ==> {
                &&& final(self).stream().unread() == old(self).stream().unread()
                &&& final(self).stream().written() == old(self).stream().written()
                &&& final(self).stream().failed() == old(self).stream().failed()
                &&& final(self).stream().peer_closed()
                &&& final(self).stream().room() == old(self).stream().room()
            },
    {
        match self {
            Connection::HandShake(state) => state.stream.close(),
            Connection::Established(state) => state.stream.close(),
            Connection::Closed(_) => {},
        }
    }

    /// The stream reported an error.
    pub fn fail_stream(&mut self)
        requires
            old(self).wf(),
        ensures
            final(self).wf(),
            same_but_stream(*old(self), *final(self)),
            !(*old(self) is Closed) ==> {
                &&& final(self).stream().unread() == old(self).stream().unread()
                &&& final(self).stream().written() == old(self).stream().written()
                &&& final(self).stream().failed()
                &&& final(self).stream().peer_closed() == old(self).stream().peer_closed()
                &&& final(self).stream().room() == old(self).stream().room()
            },
    {
        match self {
            Connection::HandShake(state) => state.stream.fail(),
            Connection::Established(state) => state.stream.fail(),
            Connection::Closed(_) => {},
        }
    }

    /// Sets how many more bytes the stream of an open connection accepts before
    /// its writes would block.
    pub fn set_room(&mut self, room: usize)
        requires
            old(self).wf(),
        ensures
            final(self).wf(),
            same_but_stream(*old(self), *final(self)),
            !(*old(self) is Closed) ==> {
                &&& final(self).stream().unread() == old(self).stream().unread()
                &&& final(self).stream().written() == old(self).stream().written()
                &&& final(self).stream().failed() == old(self).stream().failed()
                &&& final(self).stream().peer_closed() == old(self).stream().peer_closed()
                &&& final(self).stream().room() == room
            },
    {
        match self {
            Connection::HandShake(state) => state.stream.set_room(room),
            Connection::Established(state) => state.stream.set_room(room),
            Connection::Closed(_) => {},
        }
    }

    /// Hands the bytes written on an open connection over to the transport.
    pub fn take_written(&mut self) -> (r: Vec<u8>)
        requires
            old(self).wf(),
        ensures
            final(self).wf(),
            same_but_stream(*old(self), *final(self)),
            *old(self) is Closed ==> r@ == Seq::<u8>::empty(),
            !(*old(self) is Closed) ==> {
                &&& r@ == old(self).stream().written()
                &&& final(self).stream().unread() == old(self).stream().unread()
                &&& final(self).stream().written() == Seq::<u8>::empty()
                &&& final(self).stream().failed() == old(self).stream().failed()
                &&& final(self).stream().peer_closed() == old(self).stream().peer_closed()
                &&& final(self).stream().room() == old(self).stream().room()
            },
    {
        match self {
            Connection::HandShake(state) => state.stream.take_written(),
            Connection::Established(state) => state.stream.take_written(),
            Connection::Closed(_) => Vec::new(),
        }
    }

    /// The connection has ended.
    pub fn is_closed(&self) -> (r: bool)
        ensures
            r == (*self is Closed),
    {
        match self {
            Connection::Closed(_) => true,
            _ => false,
        }
    }

    /// The peer has logged in and the connection is open.
    pub fn is_established(&self) -> (r: bool)
        ensures
            r == (*self is Established),
    {
        match self {
            Connection::Established(_) => true,
            _ => false,
        }
    }
}

} // verus!
