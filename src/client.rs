//! The client's side of a session: the login envelope goes out first, then each
//! tick writes what was typed, reads what arrived, and keeps the messages.
use vstd::prelude::*;
use vstd::string::StringExecFns;

use crate::connection::LoginInfo;
use crate::envelope::decode_message;
use crate::envelope::encode_login;
use crate::envelope::encode_message;
use crate::envelope::json_quoted;
use crate::envelope::login_envelope;
use crate::envelope::message_envelope;
use crate::envelope::MesasgeFromUser;
use crate::incoming_packet::PacketError as IncomingPacketError;
use crate::outgoing_packet::PacketError as OutgoingPacketError;
use crate::packet_receiver::PacketReceiver;
use crate::packet_sender::PacketSender;
use crate::server::decoded_messages;
use crate::stream::ByteStream;
use crate::wire::declared_len;
use crate::wire::has_invalid_header;
use crate::wire::leftover_of;
use crate::wire::payloads_in;
use crate::wire::valid_payload;
use vstd::utf8::encode_utf8;

verus! {

/// The address the client offers before the user types one.
pub struct WaitingForConnectionInfoState {
    pub address: String,
}

impl WaitingForConnectionInfoState {
    pub fn new() -> (r: WaitingForConnectionInfoState)
        ensures
            r.address@ == "127.0.0.1:8787"@,
    {
        WaitingForConnectionInfoState { address: String::from_str("127.0.0.1:8787") }
    }
}

/// Why a session ended.
#[derive(Debug, Clone, Copy, PartialEq, Eq, Structural)]
pub enum DisconnectReason {
    Send(OutgoingPacketError),
    Receive(IncomingPacketError),
}

/// A logged-in session. The transport moves bytes between the socket and
/// `stream`.
pub struct LoggedInState {
    login_info: LoginInfo,
    stream: ByteStream,
    sender: PacketSender,
    receiver: PacketReceiver,
    current_input: String,
    received_messages: Vec<MesasgeFromUser>,
}

impl LoggedInState {
    pub closed spec fn wf(&self) -> bool {
        &&& self.stream.wf()
        &&& self.sender.wf()
        &&& self.receiver.wf()
        &&& self.receiver.failure() is None
    }

    pub closed spec fn user(&self) -> Seq<char> {
        self.login_info.user@
    }

    pub closed spec fn stream(&self) -> ByteStream {
        self.stream
    }

    /// What the user has typed and not sent yet.
    pub closed spec fn input(&self) -> Seq<char> {
        self.current_input@
    }

    pub closed spec fn sender(&self) -> PacketSender {
        self.sender
    }

    pub closed spec fn receiver(&self) -> PacketReceiver {
        self.receiver
    }

    /// The messages received so far, oldest first.
    pub closed spec fn messages(&self) -> Seq<(Seq<char>, Seq<char>)> {
        self.received_messages@.map_values(|m: MesasgeFromUser| m.view())
    }

    /// A session for `user` on a fresh stream, with the login envelope queued.
    pub fn new(user: String) -> (r: LoggedInState)
        ensures
            r.wf(),
            r.user() == user@,
            r.sender().pending() == seq![encode_utf8(login_envelope(json_quoted(user@)))],
            r.sender().done() == Seq::<Seq<u8>>::empty(),
            r.receiver().history() == Seq::<u8>::empty(),
            r.stream().unread() == Seq::<u8>::empty(),
            r.stream().written() == Seq::<u8>::empty(),
            !r.stream().failed() && !r.stream().peer_closed(),
            r.input() == Seq::<char>::empty(),
            r.messages() == Seq::<(Seq<char>, Seq<char>)>::empty(),
    {
        let mut sender = PacketSender::new();
        let login = encode_login(user.as_str());
        sender.add_to_send_queue(login);
        let r = LoggedInState {
            login_info: LoginInfo { user },
            stream: ByteStream::new(),
            sender,
            receiver: PacketReceiver::new(),
            current_input: String::new(),
            received_messages: Vec::new(),
        };
        proof {
            assert(r.messages() =~= Seq::<(Seq<char>, Seq<char>)>::empty());
            assert(Seq::<Seq<u8>>::empty().push(encode_utf8(login_envelope(json_quoted(user@)))) =~= seq![
                encode_utf8(login_envelope(json_quoted(user@))),
            ]);
        }
        r
    }

    /// The stream, for the transport to move bytes.
    pub fn stream_mut(&mut self) -> (r: &mut ByteStream)
        ensures
            *r == old(self).stream(),
            final(self).stream() == *final(r),
            final(self).user() == old(self).user(),
            final(self).sender() == old(self).sender(),
            final(self).receiver() == old(self).receiver(),
            final(self).input() == old(self).input(),
            final(self).messages() == old(self).messages(),
    {
        &mut self.stream
    }

    /// Replaces what the user has typed.
    pub fn set_input(&mut self, text: String)
        ensures
            final(self).input() == text@,
            final(self).stream() == old(self).stream(),
            final(self).user() == old(self).user(),
            final(self).sender() == old(self).sender(),
            final(self).receiver() == old(self).receiver(),
            final(self).messages() == old(self).messages(),
    {
        self.current_input = text;
    }

    /// The messages received so far, oldest first.
    pub fn received_messages(&self) -> (r: &Vec<MesasgeFromUser>)
        ensures
            r@.map_values(|m: MesasgeFromUser| m.view()) == self.messages(),
    {
        &self.received_messages
    }

    /// Nothing is waiting to be written: after login, the login envelope has
    /// gone out.
    pub fn all_sent(&self) -> (r: bool)
        requires
            self.wf(),
        ensures
            r == (self.sender().pending().len() == 0),
    {
        self.sender.empty()
    }

    /// Queues what was typed as a message from this user, and clears the input;
    /// an empty input sends nothing.
    pub fn send_message(&mut self)
        requires
            old(self).wf(),
        ensures
            final(self).wf(),
            final(self).user() == old(self).user(),
            final(self).receiver() == old(self).receiver(),
            final(self).stream() == old(self).stream(),
            final(self).messages() == old(self).messages(),
            final(self).sender().done() == old(self).sender().done(),
            final(self).sender().transmitted() == old(self).sender().transmitted(),
            final(self).input() == Seq::<char>::empty(),
            old(self).input().len() == 0 ==> final(self).sender().pending() == old(self).sender().pending(),
            old(self).input().len() > 0 ==> final(self).sender().pending() == old(self).sender().pending().push(
                encode_utf8(message_envelope(json_quoted(old(self).user()), json_quoted(old(self).input()))),
            ),
    {
        if self.current_input.as_str().is_empty() {
            return;
        }
        let mut text = String::new();
        std::mem::swap(&mut text, &mut self.current_input);
        let message = MesasgeFromUser { username: self.login_info.user.clone(), text };
        let envelope = encode_message(&message);
        let bytes = vstd::slice::slice_to_vec(envelope.as_str().as_bytes());
        self.sender.add_to_send_queue(bytes);
    }

    /// One tick: writes what is queued, reads what arrived, and keeps the
    /// messages that the completed payloads carry; payloads that are not message
    /// envelopes are dropped. A failure to write or read ends the session.
    pub fn tick(&mut self) -> (r: Result<(), DisconnectReason>)
        requires
            old(self).wf(),
        ensures
            r is Ok ==> final(self).wf(),
            r is Ok ==> final(self).receiver().queue() == Seq::<Seq<u8>>::empty(),
            r is Ok ==> final(self).messages() == old(self).messages() + decoded_messages(
                payloads_in(final(self).receiver().history()).skip(old(self).receiver().popped().len() as int),
            ),
            r is Ok ==> final(self).receiver().history() == old(self).receiver().history() + old(self).stream().unread(),
            final(self).user() == old(self).user(),
            r is Err ==> final(self).messages() == old(self).messages(),
            r matches Err(DisconnectReason::Send(_)) ==> final(self).receiver() == old(self).receiver(),
            r is Ok ==> final(self).sender().done() + final(self).sender().pending() == old(self).sender().done()
                + old(self).sender().pending(),
            r is Ok ==> final(self).sender().pending().len() == 0 || final(self).stream().room() == 0,
            r is Ok ==> old(self).sender().transmitted().len() <= final(self).sender().transmitted().len(),
            r is Ok ==> final(self).sender().transmitted().take(old(self).sender().transmitted().len() as int)
                == old(self).sender().transmitted(),
            r is Ok ==> final(self).stream().written() == old(self).stream().written() + final(self).sender().transmitted().skip(old(self).sender().transmitted().len() as int),
            r is Ok ==> final(self).stream().room() == old(self).stream().room() - (final(self).sender().transmitted().len()
                - old(self).sender().transmitted().len()),
            ({
                let h = old(self).receiver().history() + old(self).stream().unread();
                let pend = old(self).sender().pending();
                let failed = old(self).stream().failed();
                let closed = old(self).stream().peer_closed();
                &&& !failed && !closed && !has_invalid_header(h) && (forall|i: int| 0 <= i < pend.len()
                    ==> valid_payload(#[trigger] pend[i])) ==> r is Ok
                &&& r matches Err(DisconnectReason::Send(_)) ==> failed || exists|i: int| 0 <= i < pend.len()
                    && !valid_payload(#[trigger] pend[i])
                &&& r matches Err(DisconnectReason::Receive(e)) ==> {
                    &&& has_invalid_header(h) ==> e == IncomingPacketError::SizeTooBig(
                        declared_len(leftover_of(h)) as usize,
                    )
                    &&& !has_invalid_header(h) && failed ==> e == IncomingPacketError::StreamError
                    &&& !has_invalid_header(h) && !failed ==> closed && e == IncomingPacketError::StreamClosed
                }
            }),
    {
        let ghost pend = self.sender.pending();
        let ghost d0 = self.sender.done();
        let ghost failed0 = self.stream.failed();
        if let Err(e) = self.sender.advance(&mut self.stream) {
            proof {
                if e != OutgoingPacketError::StreamError {
                    let all = d0 + pend;
                    let j = self.sender.done().len() as int;
                    assert(j >= d0.len());
                    assert(all[j] == pend[j - d0.len()]);
                    assert(!valid_payload(pend[j - d0.len()]));
                    assert(exists|i: int| 0 <= i < pend.len() && !valid_payload(#[trigger] pend[i]));
                } else {
                    assert(failed0);
                }
                assert(pend == old(self).sender().pending());
                assert(failed0 == old(self).stream().failed());
            }
            return Err(DisconnectReason::Send(e));
        }
        let ghost q0 = self.receiver.queue();
        let ghost h0 = self.receiver.history();
        let ghost popped0 = self.receiver.popped();
        let ghost u0 = self.stream.unread();
        if let Err(e) = self.receiver.advance(&mut self.stream) {
            return Err(DisconnectReason::Receive(e));
        }
        let ghost incoming = self.receiver.queue();
        let ghost sender1 = self.sender;
        let ghost stream1 = self.stream;
        proof {
            self.receiver.lemma_arrival_order();
            assert(incoming =~= (popped0 + incoming).skip(popped0.len() as int));
        }
        let ghost m0 = self.messages();
        let ghost mut taken: int = 0;
        proof {
            assert(incoming.take(0) =~= Seq::<Seq<u8>>::empty());
            assert(m0 + Seq::<(Seq<char>, Seq<char>)>::empty() =~= m0);
        }
        loop
            invariant
                self.wf(),
                self.user() == old(self).user(),
                self.receiver.history() == h0 + u0,
                0 <= taken <= incoming.len(),
                self.receiver.queue() == incoming.skip(taken),
                self.messages() == m0 + decoded_messages(incoming.take(taken)),
                self.sender == sender1,
                self.stream == stream1,
            ensures
                self.sender == sender1,
                self.stream == stream1,
                self.wf(),
                self.user() == old(self).user(),
                self.receiver.history() == h0 + u0,
                self.receiver.queue() == Seq::<Seq<u8>>::empty(),
                self.messages() == m0 + decoded_messages(incoming),
            decreases self.receiver.queue().len(),
        {
            match self.receiver.pop_packet() {
                Some(payload) => {
                    let ghost before = self.messages();
                    proof {
                        assert(incoming.take(taken + 1).drop_last() =~= incoming.take(taken));
                        assert(incoming.take(taken + 1).last() == payload@);
                        assert(incoming.skip(taken).drop_first() =~= incoming.skip(taken + 1));
                        taken = taken + 1;
                    }
                    match decode_message(payload.as_slice()) {
                        Some(m) => {
                            let ghost mv = m.view();
                            self.received_messages.push(m);
                            proof {
                                assert(self.messages() =~= before.push(mv));
                            }
                        },
                        None => {},
                    }
                },
                None => {
                    proof {
                        assert(taken == incoming.len());
                        assert(incoming.take(taken) =~= incoming);
                    }
                    break;
                },
            }
        }
        Ok(())
    }
}

} // verus!
