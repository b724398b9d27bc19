//! Collects the payloads of the frames that arrive on a stream, in the order
//! they arrive.
use std::collections::VecDeque;
use vstd::prelude::*;

use crate::incoming_packet::partial_frame;
use crate::incoming_packet::Packet;
use crate::incoming_packet::PacketError;
use crate::stream::ByteStream;
use crate::wire::declared_len;
use crate::wire::has_invalid_header;
use crate::wire::leftover_of;
use crate::wire::lemma_invalid_header_persists;
use crate::wire::lemma_split_append;
use crate::wire::lemma_split_complete;
use crate::wire::payloads_in;
use crate::wire::split_frames;

verus! {

/// The byte contents of a queue of buffers.
pub open spec fn contents(q: Seq<Vec<u8>>) -> Seq<Seq<u8>> {
    q.map_values(|v: Vec<u8>| v@)
}

/// Reads frames one after another from a stream and queues their payloads.
pub struct PacketReceiver {
    received: VecDeque<Vec<u8>>,
    current: Packet,
    history: Ghost<Seq<u8>>,
    popped: Ghost<Seq<Seq<u8>>>,
}

impl PacketReceiver {
    /// Every byte this receiver has taken from its stream, in order.
    pub closed spec fn history(&self) -> Seq<u8> {
        self.history@
    }

    /// The payloads already handed out by `pop_packet`, in order.
    pub closed spec fn popped(&self) -> Seq<Seq<u8>> {
        self.popped@
    }

    /// The completed payloads waiting to be handed out, oldest first.
    pub closed spec fn queue(&self) -> Seq<Seq<u8>> {
        contents(self.received@)
    }

    /// The error that stopped this receiver, if one did.
    pub closed spec fn failure(&self) -> Option<PacketError> {
        match self.current {
            Packet::Failed(e) => Some(e),
            _ => None,
        }
    }

    pub closed spec fn wf(&self) -> bool {
        &&& payloads_in(self.history@) == self.popped@ + contents(self.received@)
        &&& !(self.current is Received)
        &&& self.current.in_flight() ==> {
            &&& self.current.wf()
            &&& leftover_of(self.history@) == self.current.consumed()
            &&& partial_frame(self.current.consumed())
        }
        &&& self.current matches Packet::Failed(PacketError::SizeTooBig(n)) ==> {
            &&& has_invalid_header(self.history@)
            &&& leftover_of(self.history@).len() == 4
            &&& n == declared_len(leftover_of(self.history@)) as usize
        }
        &&& !(self.current matches Packet::Failed(PacketError::SizeTooBig(_))) ==> !has_invalid_header(
            self.history@,
        )
    }

    pub fn new() -> (r: PacketReceiver)
        ensures
            r.wf(),
            r.history() == Seq::<u8>::empty(),
            r.popped() == Seq::<Seq<u8>>::empty(),
            r.queue() == Seq::<Seq<u8>>::empty(),
            r.failure() is None,
    {
        let r = PacketReceiver {
            received: VecDeque::new(),
            current: Packet::new(),
            history: Ghost(Seq::empty()),
            popped: Ghost(Seq::empty()),
        };
        proof {
            assert(split_frames(Seq::<u8>::empty()) == (Seq::<Seq<u8>>::empty(), Seq::<u8>::empty()));
            assert(contents(r.received@) =~= Seq::<Seq<u8>>::empty());
            assert(Seq::<Seq<u8>>::empty() + Seq::<Seq<u8>>::empty() =~= Seq::<Seq<u8>>::empty());
        }
        r
    }

    /// Drives the frame in progress until the stream has no more bytes for it,
    /// queueing each completed payload and starting the next frame at once, so
    /// that one call may complete several frames. A failure stops the receiver
    /// for good: later calls report it again and read nothing.
    pub fn advance(&mut self, stream: &mut ByteStream) -> (r: Result<(), PacketError>)
        requires
            old(self).wf(),
            old(stream).wf(),
        ensures
            final(self).wf(),
            final(stream).wf(),
            final(stream).peer_closed() == old(stream).peer_closed(),
            final(stream).failed() == old(stream).failed(),
            final(stream).written() == old(stream).written(),
            final(stream).room() == old(stream).room(),
            final(self).popped() == old(self).popped(),
            final(self).popped() + final(self).queue() == payloads_in(final(self).history()),
            old(stream).unread().len() >= final(stream).unread().len(),
            final(stream).unread() == old(stream).unread().skip(
                old(stream).unread().len() - final(stream).unread().len(),
            ),
            final(self).history() == old(self).history() + old(stream).unread().take(
                old(stream).unread().len() - final(stream).unread().len(),
            ),
            r is Ok ==> final(self).failure() is None,
            r matches Err(e) ==> final(self).failure() == Some(e),
            old(self).failure() matches Some(e) ==> r == Err::<(), PacketError>(e) && *final(self) == *old(self)
                && *final(stream) == *old(stream),
            old(self).failure() is None && old(stream).unread().len() == 0 && !old(stream).failed()
                && !old(stream).peer_closed() ==> r is Ok && *final(self) == *old(self),
            old(self).failure() is None ==> {
                let h = old(self).history() + old(stream).unread();
                let failed = old(stream).failed();
                let closed = old(stream).peer_closed();
                &&& (r matches Err(PacketError::SizeTooBig(_))) <==> has_invalid_header(h)
                &&& has_invalid_header(h) ==> {
                    &&& leftover_of(final(self).history()).len() == 4
                    &&& r == Err::<(), PacketError>(PacketError::SizeTooBig(
                        declared_len(leftover_of(final(self).history())) as usize,
                    ))
                    &&& declared_len(leftover_of(h)) == declared_len(leftover_of(final(self).history()))
                }
                &&& !has_invalid_header(h) ==> {
                    &&& final(self).history() == h
                    &&& failed ==> r == Err::<(), PacketError>(PacketError::StreamError)
                    &&& !failed && closed ==> r == Err::<(), PacketError>(PacketError::StreamClosed)
                    &&& !failed && !closed ==> r is Ok
                }
            },
    {
        if let Packet::Failed(e) = &self.current {
            proof {
                assert(stream.unread().take(0) =~= Seq::<u8>::empty());
                assert(self.history@ + Seq::<u8>::empty() =~= self.history@);
                assert(stream.unread().skip(0) =~= stream.unread());
            }
            return Err(*e);
        }
        let ghost u = stream.unread();
        let ghost h0 = self.history@;
        let mut done = false;
        let mut result: Result<(), PacketError> = Ok(());
        let ghost mut taken: int = 0;
        proof {
            assert(u.take(0) =~= Seq::<u8>::empty());
            assert(h0 + Seq::<u8>::empty() =~= h0);
        }
        while !done
            invariant
                stream.wf(),
                stream.peer_closed() == old(stream).peer_closed(),
                stream.failed() == old(stream).failed(),
                stream.written() == old(stream).written(),
                stream.room() == old(stream).room(),
                u == old(stream).unread(),
                0 <= taken <= u.len(),
                stream.unread() == u.skip(taken as int),
                self.history@ == h0 + u.take(taken as int),
                self.popped@ == old(self).popped@,
                self.wf(),
                u.len() == 0 && !stream.failed() && !stream.peer_closed() ==> *self == *old(self),
                !done ==> self.current.in_flight() && result is Ok,
                done ==> {
                    &&& result is Ok ==> self.current.in_flight() && taken == u.len() && !stream.failed()
                        && !stream.peer_closed()
                    &&& result matches Err(e) ==> self.current == Packet::Failed(e)
                    &&& result == Err::<(), PacketError>(PacketError::StreamError) ==> taken == u.len()
                        && stream.failed()
                    &&& result == Err::<(), PacketError>(PacketError::StreamClosed) ==> taken == u.len()
                        && !stream.failed() && stream.peer_closed()
                },
            decreases stream.unread().len() + (if done { 0int } else { 1int }),
        {
            let mut packet = Packet::new();
            std::mem::swap(&mut packet, &mut self.current);
            let ghost hist = self.history@;
            let ghost c = packet.consumed();
            let ghost rest = stream.unread();
            let next = packet.advance_until_would_block(stream);
            let ghost k = (rest.len() - stream.unread().len()) as int;
            let ghost piece = rest.take(k);
            proof {
                lemma_split_append(hist, piece);
                assert(rest == u.skip(taken as int));
                assert(u.take(taken as int) + piece =~= u.take(taken + k));
                assert(hist + piece =~= h0 + u.take(taken + k));
                assert(leftover_of(hist) == c);
                assert(u.skip(taken as int).skip(k) =~= u.skip(taken + k));
                if partial_frame(c + rest) {
                    assert(piece =~= rest);
                }
            }
            match next {
                Packet::Received(data) => {
                    proof {
                        lemma_split_complete(c + piece);
                        if k == 0 {
                            assert(c + piece =~= c);
                        }
                        assert(payloads_in(hist + piece) =~= self.popped@ + contents(self.received@) + seq![data@]);
                        assert(contents(self.received@.push(data)) =~= contents(self.received@) + seq![data@]);
                    }
                    self.received.push_back(data);
                    self.current = Packet::new();
                    self.history = Ghost(hist + piece);
                    proof {
                        taken = taken + k;
                    }
                    proof {
                        assert(self.popped@ + contents(self.received@) =~= payloads_in(self.history@));
                        assert(leftover_of(self.history@) =~= Seq::<u8>::empty());
                        assert(!has_invalid_header(self.history@));
                    }
                },
                Packet::Failed(e) => {
                    proof {
                        assert(split_frames(c + piece) == (Seq::<Seq<u8>>::empty(), c + piece));
                        assert(payloads_in(hist + piece) =~= payloads_in(hist));
                        if let PacketError::SizeTooBig(_) = e {
                            assert((c + piece).take(4) =~= c + piece);
                        }
                    }
                    self.current = Packet::Failed(e);
                    self.history = Ghost(hist + piece);
                    proof {
                        taken = taken + k;
                    }
                    result = Err(e);
                    done = true;
                },
                other => {
                    proof {
                        assert(split_frames(c + piece) == (Seq::<Seq<u8>>::empty(), c + piece));
                        assert(payloads_in(hist + piece) =~= payloads_in(hist));
                    }
                    proof {
                        if u.len() == 0 && !stream.failed() && !stream.peer_closed() {
                            assert(hist + piece =~= hist);
                        }
                    }
                    self.current = other;
                    self.history = Ghost(hist + piece);
                    proof {
                        taken = taken + k;
                    }
                    done = true;
                },
            }
        }
        proof {
            let h = h0 + u;
            let fin = self.history@;
            assert(u.skip(taken as int) + Seq::<u8>::empty() =~= u.skip(taken as int));
            assert(fin + u.skip(taken as int) =~= h);
            if let Packet::Failed(PacketError::SizeTooBig(_)) = self.current {
                lemma_invalid_header_persists(fin, u.skip(taken as int));
                assert((leftover_of(fin) + u.skip(taken as int)).take(4) =~= leftover_of(fin).take(4));
            } else {
                assert(u.take(taken as int) =~= u);
            }
        }
        result
    }

    /// The payloads a receiver hands out, followed by those it holds, are the
    /// payloads of the complete frames among the bytes it has taken, in the order
    /// they arrived.
    pub proof fn lemma_arrival_order(&self)
        requires
            self.wf(),
        ensures
            self.popped() + self.queue() == payloads_in(self.history()),
    {
    }

    /// Two receivers that have taken the same bytes hold the same payloads in the
    /// same order, however the bytes were cut into reads and calls: each call of
    /// `advance` extends the history by exactly the bytes it read.
    pub proof fn lemma_same_bytes_same_payloads(a: &PacketReceiver, b: &PacketReceiver)
        requires
            a.wf(),
            b.wf(),
            a.history() == b.history(),
        ensures
            a.popped() + a.queue() == b.popped() + b.queue(),
    {
    }

    /// Hands out the oldest completed payload, if any.
    pub fn pop_packet(&mut self) -> (r: Option<Vec<u8>>)
        requires
            old(self).wf(),
        ensures
            final(self).wf(),
            final(self).history() == old(self).history(),
            final(self).failure() == old(self).failure(),
            final(self).popped() + final(self).queue() == payloads_in(final(self).history()),
            old(self).queue().len() == 0 ==> r is None && final(self).queue() == old(self).queue()
                && final(self).popped() == old(self).popped(),
            old(self).queue().len() > 0 ==> {
                &&& r matches Some(d) && d@ == old(self).queue()[0]
                &&& final(self).queue() == old(self).queue().drop_first()
                &&& final(self).popped() == old(self).popped().push(old(self).queue()[0])
            },
    {
        let r = self.received.pop_front();
        proof {
            if old(self).queue().len() > 0 {
                self.popped = Ghost(self.popped@.push(old(self).queue()[0]));
                assert(contents(self.received@) =~= old(self).queue().drop_first());
                assert(self.popped@ + contents(self.received@) =~= old(self).popped@ + old(self).queue());
            }
        }
        r
    }

    /// Number of completed payloads waiting.
    pub fn len(&self) -> (r: usize)
        ensures
            r == self.queue().len(),
    {
        self.received.len()
    }
}

} // verus!
