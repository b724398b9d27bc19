//! Queues payloads and writes them to a stream as frames, one after another,
//! in the order they were queued.
use std::collections::VecDeque;
use vstd::prelude::*;

use crate::outgoing_packet::Packet;
use crate::outgoing_packet::PacketError;
use crate::packet_receiver::contents;
use crate::stream::ByteStream;
use crate::wire::frame_of;
use crate::wire::frames_of;
use crate::wire::lemma_frames_append;
use crate::wire::lemma_frames_single;
use crate::wire::valid_payload;

verus! {

/// The error reported for a payload that no frame can carry.
pub open spec fn rejection(p: Seq<u8>) -> PacketError {
    if p.len() == 0 {
        PacketError::ZeroSizedPacket
    } else {
        PacketError::SizeTooBig(p.len() as usize)
    }
}

/// Writes queued payloads to a stream as frames, in queue order.
pub struct PacketSender {
    send_queue: VecDeque<Vec<u8>>,
    current: Option<Packet>,
    done: Ghost<Seq<Seq<u8>>>,
    transmitted: Ghost<Seq<u8>>,
}

impl PacketSender {
    /// The payloads written out in full, in order.
    pub closed spec fn done(&self) -> Seq<Seq<u8>> {
        self.done@
    }

    /// Every byte this sender has written, in order.
    pub closed spec fn transmitted(&self) -> Seq<u8> {
        self.transmitted@
    }

    /// The payloads not yet written in full, oldest first: the one being written,
    /// if any, then the queue.
    pub closed spec fn pending(&self) -> Seq<Seq<u8>> {
        match self.current {
            Some(p) => seq![p.frame().skip(4)] + contents(self.send_queue@),
            None => contents(self.send_queue@),
        }
    }

    /// How many bytes of the payload being written have gone out, header included.
    pub closed spec fn partial(&self) -> Seq<u8> {
        match self.current {
            Some(p) => p.frame().take(p.sent_count() as int),
            None => Seq::empty(),
        }
    }

    pub closed spec fn wf(&self) -> bool {
        &&& self.current matches Some(p) ==> p.is_pending() && p.wf()
        &&& self.transmitted@ == frames_of(self.done@) + self.partial()
        &&& self.current matches Some(p) ==> p.frame() == frame_of(p.frame().skip(4)) && valid_payload(
            p.frame().skip(4),
        )
    }

    pub fn new() -> (r: PacketSender)
        ensures
            r.wf(),
            r.done() == Seq::<Seq<u8>>::empty(),
            r.pending() == Seq::<Seq<u8>>::empty(),
            r.transmitted() == Seq::<u8>::empty(),
    {
        let r = PacketSender {
            send_queue: VecDeque::new(),
            current: None,
            done: Ghost(Seq::empty()),
            transmitted: Ghost(Seq::empty()),
        };
        proof {
            assert(contents(r.send_queue@) =~= Seq::<Seq<u8>>::empty());
            assert(frames_of(Seq::<Seq<u8>>::empty()) + Seq::<u8>::empty() =~= Seq::<u8>::empty());
        }
        r
    }

    /// Appends a payload to the queue.
    pub fn add_to_send_queue(&mut self, data: Vec<u8>)
        requires
            old(self).wf(),
        ensures
            final(self).wf(),
            final(self).done() == old(self).done(),
            final(self).transmitted() == old(self).transmitted(),
            final(self).pending() == old(self).pending().push(data@),
    {
        let ghost d = data@;
        self.send_queue.push_back(data);
        proof {
            assert(contents(self.send_queue@) =~= contents(old(self).send_queue@).push(d));
            if self.current is Some {
                assert(self.pending() =~= old(self).pending().push(d));
            }
        }
    }

    /// Writes the pending payloads as frames, one after another, until all are
    /// written or the stream would block. A payload that no frame can carry
    /// (empty, or too large) is taken out of the queue and reported; a failed
    /// stream is reported and nothing is lost.
    #[verifier::spinoff_prover]
    #[verifier::rlimit(80)]
    pub fn advance(&mut self, stream: &mut ByteStream) -> (r: Result<(), PacketError>)
        requires
            old(self).wf(),
            old(stream).wf(),
        ensures
            final(self).wf(),
            final(stream).wf(),
            final(stream).unread() == old(stream).unread(),
            final(stream).peer_closed() == old(stream).peer_closed(),
            final(stream).failed() == old(stream).failed(),
            old(self).done().len() <= final(self).done().len(),
            final(self).done().take(old(self).done().len() as int) == old(self).done(),
            old(self).transmitted().len() <= final(self).transmitted().len(),
            final(self).transmitted().take(old(self).transmitted().len() as int) == old(self).transmitted(),
            final(stream).written() == old(stream).written() + final(self).transmitted().skip(
                old(self).transmitted().len() as int,
            ),
            r is Ok || r == Err::<(), PacketError>(PacketError::StreamError) ==> final(self).done() + final(self).pending() == old(self).done() + old(self).pending(),
            r is Ok ==> final(self).pending().len() == 0 || final(stream).room() == 0,
            r == Err::<(), PacketError>(PacketError::StreamError) ==> old(stream).failed() && final(self).transmitted() == old(self).transmitted(),
            !(r is Ok || r == Err::<(), PacketError>(PacketError::StreamError)) ==> {
                let all = old(self).done() + old(self).pending();
                let i = final(self).done().len() as int;
                &&& i < all.len()
                &&& !valid_payload(all[i])
                &&& final(self).done() + final(self).pending() == all.remove(i)
                &&& all[i].len() == 0 ==> r == Err::<(), PacketError>(PacketError::ZeroSizedPacket)
                &&& all[i].len() > 0 ==> r == Err::<(), PacketError>(PacketError::SizeTooBig(all[i].len() as usize))
            },
            !old(stream).failed() && (forall|i: int| 0 <= i < old(self).pending().len() ==> valid_payload(
                #[trigger] old(self).pending()[i],
            )) ==> r is Ok,
            old(stream).failed() && old(self).pending().len() > 0 && valid_payload(old(self).pending()[0])
                ==> r == Err::<(), PacketError>(PacketError::StreamError),
            old(self).pending().len() == 0 ==> r is Ok && final(self).done() == old(self).done()
                && final(self).pending().len() == 0 && final(self).transmitted() == old(self).transmitted(),
            old(self).pending().len() > 0 && !valid_payload(old(self).pending()[0]) ==> {
                &&& r == Err::<(), PacketError>(rejection(old(self).pending()[0]))
                &&& final(self).done() == old(self).done()
                &&& final(self).pending() == old(self).pending().drop_first()
                &&& final(self).transmitted() == old(self).transmitted()
                &&& *final(stream) == *old(stream)
            },
            final(stream).room() == old(stream).room() - (final(self).transmitted().len() - old(self).transmitted().len()),
            final(self).pending().len() == 0 ==> final(self).transmitted() == frames_of(final(self).done()),
            old(stream).room() == 0 && (old(self).pending().len() == 0 || valid_payload(old(self).pending()[0]))
                ==> {
                &&& final(self).done() == old(self).done()
                &&& final(self).pending() == old(self).pending()
                &&& final(self).transmitted() == old(self).transmitted()
                &&& *final(stream) == *old(stream)
            },
    {
        let ghost all = self.done@ + self.pending();
        let ghost t0 = self.transmitted@;
        let ghost w0 = stream.written();
        let ghost d0 = self.done@;
        let ghost pending0 = self.pending();
        let mut result: Result<(), PacketError> = Ok(());
        let mut finished = false;
        proof {
            if self.current is Some {
                self.current->0.lemma_pending();
                assert(pending0[0] == self.current->0.frame().skip(4));
            }
            assert(t0.skip(t0.len() as int) =~= Seq::<u8>::empty());
            assert(w0 + Seq::<u8>::empty() =~= w0);
            assert(t0.take(t0.len() as int) =~= t0);
            assert(d0.take(d0.len() as int) =~= d0);
        }
        while !finished
            invariant
                self.wf(),
                stream.wf(),
                stream.unread() == old(stream).unread(),
                stream.peer_closed() == old(stream).peer_closed(),
                stream.failed() == old(stream).failed(),
                all == d0 + pending0,
                d0 == old(self).done(),
                pending0 == old(self).pending(),
                t0 == old(self).transmitted(),
                w0 == old(stream).written(),
                d0.len() <= self.done@.len(),
                self.done@.take(d0.len() as int) == d0,
                t0.len() <= self.transmitted@.len(),
                self.transmitted@.take(t0.len() as int) == t0,
                stream.written() == w0 + self.transmitted@.skip(t0.len() as int),
                result is Ok ==> self.done@ + self.pending() == all,
                result is Ok && finished ==> self.pending().len() == 0 || stream.room() == 0,
                !finished ==> result is Ok,
                !stream.failed() && (forall|i: int| 0 <= i < pending0.len() ==> valid_payload(#[trigger] pending0[i]))
                    ==> result is Ok,
                stream.failed() ==> self.transmitted@ == t0 && self.done@ == d0,
                stream.room() + (self.transmitted@.len() - t0.len()) == old(stream).room(),
                pending0.len() == 0 ==> result is Ok && self.done@ == d0 && self.pending().len() == 0
                    && self.transmitted@ == t0,
                pending0.len() > 0 && !valid_payload(pending0[0]) ==> {
                    &&& self.done@ == d0
                    &&& self.transmitted@ == t0
                    &&& *stream == *old(stream)
                    &&& !finished ==> self.pending() == pending0 && self.current is None
                    &&& finished ==> result == Err::<(), PacketError>(rejection(pending0[0])) && self.pending()
                        == pending0.drop_first()
                },
                self.done@.len() > d0.len() ==> self.transmitted@.len() > t0.len(),
                old(stream).room() == 0 ==> self.done@ == d0 && self.transmitted@ == t0 && *stream == *old(stream),
                old(stream).room() == 0 && (pending0.len() == 0 || valid_payload(pending0[0])) ==> (result is Ok || result
                    == Err::<(), PacketError>(PacketError::StreamError)),
                stream.failed() && pending0.len() > 0 && valid_payload(pending0[0]) && finished ==> result == Err::<
                    (),
                    PacketError,
                >(PacketError::StreamError),
                result == Err::<(), PacketError>(PacketError::StreamError) ==> stream.failed()
                    && self.done@ + self.pending() == all,
                !(result is Ok || result == Err::<(), PacketError>(PacketError::StreamError)) ==> {
                    let i = self.done@.len() as int;
                    &&& i < all.len()
                    &&& !valid_payload(all[i])
                    &&& self.done@ + self.pending() == all.remove(i)
                    &&& all[i].len() == 0 ==> result == Err::<(), PacketError>(PacketError::ZeroSizedPacket)
                    &&& all[i].len() > 0 ==> result == Err::<(), PacketError>(PacketError::SizeTooBig(all[i].len() as usize))
                },
            decreases stream.room() + (if finished { 0int } else { 1int }),
        {
            let ghost before_pending = self.pending();
            if self.current.is_none() {
                match self.send_queue.pop_front() {
                    None => {
                        finished = true;
                    },
                    Some(data) => {
                        let p = Packet::new(data.as_slice());
                        proof {
                            assert(contents(self.send_queue@) =~= before_pending.drop_first());
                            assert(before_pending[0] == data@);
                        }
                        match p {
                            Packet::Failed(e) => {
                                proof {
                                    if old(stream).room() == 0 {
                                        assert(self.done@ == d0);
                                        assert(all[d0.len() as int] == pending0[0]);
                                    }
                                    let i = self.done@.len() as int;
                                    assert(all[i] == data@);
                                    if pending0.len() > 0 && !valid_payload(pending0[0]) {
                                        assert(self.pending() =~= pending0.drop_first());
                                    }
                                    assert(self.done@ + self.pending() =~= all.remove(i));
                                }
                                result = Err(e);
                                finished = true;
                            },
                            other => {
                                self.current = Some(other);
                                proof {
                                    assert(other.frame().skip(4) =~= data@);
                                    assert(self.pending() =~= before_pending);
                                    assert(other.frame().take(0) =~= Seq::<u8>::empty());
                                }
                            },
                        }
                    },
                }
            }
            if !finished {
                if stream.is_failed() {
                    result = Err(PacketError::StreamError);
                    finished = true;
                } else {
                    let ghost cur = self.current;
                    let mut slot: Option<Packet> = None;
                    std::mem::swap(&mut slot, &mut self.current);
                    assert(slot == cur);
                    if let Some(packet) = slot {
                        assert(packet.is_pending() && packet.wf());
                        proof {
                            packet.lemma_pending();
                        }
                        let ghost f = packet.frame();
                        let ghost s = packet.sent_count();
                        let ghost w_before = stream.written();
                        let ghost room_before = stream.room();
                        let ghost q = contents(self.send_queue@);
                        let next = packet.advance_until_would_block(stream);
                        let ghost k = stream.written().len() - w_before.len();
                        proof {
                            let rem = (f.len() - s) as nat;
                            let kk = if rem < room_before { rem } else { room_before };
                            assert(stream.written() == w_before + f.subrange(s as int, (s + kk) as int));
                            assert(k == kk);
                            assert(s + k <= f.len());
                            assert(next is Sent ==> k > 0);
                            assert(stream.written() == w_before + f.subrange(s as int, s + k));
                            assert(f.take(s as int) + f.subrange(s as int, s + k) =~= f.take(s + k));
                        }
                        match next {
                            Packet::InProgress(p) => {
                                self.current = Some(Packet::InProgress(p));
                                self.transmitted = Ghost(frames_of(self.done@) + f.take(next.sent_count() as int));
                                finished = true;
                            },
                            _ => {
                                proof {
                                    assert(f.take(f.len() as int) =~= f);
                                    assert(self.done@.push(f.skip(4)).drop_last() =~= self.done@);
                                    assert(frames_of(self.done@.push(f.skip(4))) == frames_of(self.done@) + frame_of(f.skip(4)));
                                    assert(self.done@.push(f.skip(4)) + q =~= self.done@ + (seq![f.skip(4)] + q));
                                }
                                self.done = Ghost(self.done@.push(f.skip(4)));
                                self.transmitted = Ghost(frames_of(self.done@));
                            },
                        }
                        proof {
                            assert(self.transmitted@ =~= self.transmitted@.take(t0.len() as int) + self.transmitted@.skip(t0.len() as int));
                        }
                    }
                }
            }
        }
        proof {
            if old(stream).room() == 0 && (pending0.len() == 0 || valid_payload(pending0[0])) {
                assert(self.pending() =~= (self.done@ + self.pending()).skip(d0.len() as int));
                assert(all.skip(d0.len() as int) =~= pending0);
            }
        }
        result
    }

    /// The bytes a sender has written are the whole frames of the payloads it has
    /// finished, in the order they were queued, then the start of the frame of
    /// the next pending payload: always a prefix of the frames of all its payloads
    /// in queue order.
    pub proof fn lemma_send_order(&self)
        requires
            self.wf(),
        ensures
            self.transmitted().len() <= frames_of(self.done() + self.pending()).len(),
            self.transmitted() == frames_of(self.done() + self.pending()).take(self.transmitted().len() as int),
            frames_of(self.done()).len() <= self.transmitted().len(),
            self.transmitted().take(frames_of(self.done()).len() as int) == frames_of(self.done()),
            self.pending().len() == 0 ==> self.transmitted() == frames_of(self.done()),
            self.pending().len() > 0 ==> self.transmitted() == frames_of(self.done()) + frame_of(self.pending()[0]).take(
                self.transmitted().len() - frames_of(self.done()).len(),
            ),
    {
        let d = self.done@;
        let pend = self.pending();
        let t = self.transmitted@;
        lemma_frames_append(d, pend);
        let q = contents(self.send_queue@);
        if self.current is Some {
            let p = self.current->0;
            let x = p.frame().skip(4);
            p.lemma_pending();
            assert(pend == seq![x] + q);
            lemma_frames_append(seq![x], q);
            lemma_frames_single(x);
            let rest = frame_of(x) + frames_of(q);
            assert(frames_of(pend) == rest);
            assert(t == frames_of(d) + frame_of(x).take(p.sent_count() as int));
            assert(t =~= (frames_of(d) + rest).take(t.len() as int));
            assert(t.take(frames_of(d).len() as int) =~= frames_of(d));
            assert(pend[0] == x);
        } else {
            assert(t =~= frames_of(d) + Seq::<u8>::empty());
            assert(t =~= (frames_of(d) + frames_of(pend)).take(t.len() as int));
            assert(t.take(frames_of(d).len() as int) =~= frames_of(d));
            if pend.len() > 0 {
                assert(frame_of(pend[0]).take(0) =~= Seq::<u8>::empty());
            }
        }
    }

    /// Nothing is waiting to be written.
    pub fn empty(&self) -> (r: bool)
        requires
            self.wf(),
        ensures
            r == (self.pending().len() == 0),
    {
        self.current.is_none() && self.send_queue.len() == 0
    }
}

} // verus!
