//! Send side of the framing protocol: a state machine that writes one frame to
//! a non-blocking stream in bounded chunks.
use vstd::prelude::*;
use vstd::slice::slice_subrange;

use crate::stream::ByteStream;
use crate::stream::WriteOutcome;
use crate::wire::frame_of;
use crate::wire::header_of;
use crate::wire::valid_payload;
use crate::wire::MAX_PACKET_SIZE;
use crate::wire::MAX_SEND_CHUNK;

verus! {

/// A frame being written: its bytes, header included, and how many have gone out.
pub struct PacketInProgress {
    data: Vec<u8>,
    sent: usize,
}

/// Why writing a frame failed.
#[derive(Debug, Clone, Copy, PartialEq, Eq, Structural)]
pub enum PacketError {
    /// The payload is empty: no frame may declare a length of zero.
    ZeroSizedPacket,
    /// The payload is too large for a frame; the length is given.
    SizeTooBig(usize),
    /// The stream reported an error other than would-block.
    StreamError,
}

/// Where writing one frame stands.
pub enum Packet {
    /// Some bytes of the frame are still to be written.
    InProgress(PacketInProgress),
    /// The whole frame has been written.
    Sent,
    /// Writing the frame failed.
    Failed(PacketError),
}

impl PacketInProgress {
    pub closed spec fn wf(&self) -> bool {
        &&& valid_payload(self.data@.skip(4))
        &&& self.data@ == frame_of(self.data@.skip(4))
        &&& self.sent < self.data.len()
    }

    /// The bytes of the whole frame, header included.
    pub closed spec fn frame(&self) -> Seq<u8> {
        self.data@
    }

    /// How many bytes of the frame have been written.
    pub closed spec fn sent_count(&self) -> nat {
        self.sent as nat
    }

    /// Number of bytes of the frame written so far.
    pub fn sent(&self) -> (r: usize)
        ensures
            r == self.sent_count(),
    {
        self.sent
    }

    /// One write of the next chunk of the frame: at most `MAX_SEND_CHUNK` bytes.
    pub fn advance(self, stream: &mut ByteStream) -> (r: (Packet, usize))
        requires
            self.wf(),
            old(stream).wf(),
        ensures
            final(stream).wf(),
            final(stream).unread() == old(stream).unread(),
            final(stream).peer_closed() == old(stream).peer_closed(),
            final(stream).failed() == old(stream).failed(),
            old(stream).failed() ==> r == (Packet::Failed(PacketError::StreamError), 0usize) && *final(stream)
                == *old(stream),
            !old(stream).failed() && old(stream).room() == 0 ==> r == (Packet::InProgress(self), 0usize)
                && *final(stream) == *old(stream),
            !old(stream).failed() && old(stream).room() > 0 ==> {
                let rem = (self.frame().len() - self.sent_count()) as nat;
                let chunk = if rem < MAX_SEND_CHUNK { rem } else { MAX_SEND_CHUNK as nat };
                let k = if chunk < old(stream).room() { chunk } else { old(stream).room() };
                &&& r.1 == k
                &&& final(stream).written() == old(stream).written() + self.frame().subrange(
                    self.sent_count() as int,
                    (self.sent_count() + k) as int,
                )
                &&& final(stream).room() == old(stream).room() - k
                &&& self.sent_count() + k == self.frame().len() ==> r.0 is Sent
                &&& self.sent_count() + k < self.frame().len() ==> (r.0 matches Packet::InProgress(p) && p.wf()
                    && p.frame() == self.frame() && p.sent_count() == self.sent_count() + k)
            },
    {
        let mut this = self;
        let remaining = this.data.len() - this.sent;
        let chunk = if remaining < MAX_SEND_CHUNK { remaining } else { MAX_SEND_CHUNK };
        let part = slice_subrange(this.data.as_slice(), this.sent, this.sent + chunk);
        match stream.write(part) {
            WriteOutcome::Written(k) => {
                proof {
                    assert(part@.take(k as int) =~= this.data@.subrange(this.sent as int, this.sent + k));
                }
                this.sent = this.sent + k;
                if this.sent < this.data.len() {
                    (Packet::InProgress(this), k)
                } else {
                    (Packet::Sent, k)
                }
            },
            WriteOutcome::WouldBlock => (Packet::InProgress(this), 0),
            WriteOutcome::Failed => (Packet::Failed(PacketError::StreamError), 0),
        }
    }
}

impl Packet {
    pub open spec fn is_pending(self) -> bool {
        self is InProgress
    }

    pub closed spec fn wf(self) -> bool {
        self matches Packet::InProgress(p) ==> p.wf()
    }

    /// The bytes of the frame being written, header included.
    pub closed spec fn frame(self) -> Seq<u8> {
        match self {
            Packet::InProgress(p) => p.data@,
            _ => Seq::empty(),
        }
    }

    /// How many bytes of the frame being written have gone out.
    pub closed spec fn sent_count(self) -> nat {
        match self {
            Packet::InProgress(p) => p.sent as nat,
            _ => 0,
        }
    }

    /// A pending frame carries a valid payload and has bytes left to write.
    pub proof fn lemma_pending(self)
        requires
            self.wf(),
            self.is_pending(),
        ensures
            self.sent_count() < self.frame().len(),
            valid_payload(self.frame().skip(4)),
            self.frame() == frame_of(self.frame().skip(4)),
    {
    }

    /// A frame for `bytes`, nothing written yet. An empty payload, or one too large
    /// for a frame, is refused.
    pub fn new(bytes: &[u8]) -> (r: Packet)
        ensures
            r.wf(),
            bytes@.len() == 0 ==> r == Packet::Failed(PacketError::ZeroSizedPacket),
            bytes@.len() >= MAX_PACKET_SIZE ==> r == Packet::Failed(PacketError::SizeTooBig(bytes@.len() as usize)),
            valid_payload(bytes@) ==> r is InProgress && r.frame() == frame_of(bytes@) && r.sent_count() == 0,
    {
        let len = bytes.len();
        if len == 0 {
            return Packet::Failed(PacketError::ZeroSizedPacket);
        }
        if len >= MAX_PACKET_SIZE as usize {
            return Packet::Failed(PacketError::SizeTooBig(len));
        }
        let mut data: Vec<u8> = Vec::with_capacity(len + 4);
        data.push((len / 16777216 % 256) as u8);
        data.push((len / 65536 % 256) as u8);
        data.push((len / 256 % 256) as u8);
        data.push((len % 256) as u8);
        data.extend_from_slice(bytes);
        proof {
            assert(data@.skip(4) =~= bytes@);
            assert(data@ =~= header_of(len as nat) + bytes@);
        }
        Packet::InProgress(PacketInProgress { data, sent: 0 })
    }

    /// Performs at most one write on the stream; a sent or failed frame is left as
    /// it is.
    pub fn advance(self, stream: &mut ByteStream) -> (r: Packet)
        requires
            self.wf(),
            old(stream).wf(),
        ensures
            r.wf(),
            final(stream).wf(),
            final(stream).unread() == old(stream).unread(),
            final(stream).peer_closed() == old(stream).peer_closed(),
            final(stream).failed() == old(stream).failed(),
            !self.is_pending() ==> r == self && *final(stream) == *old(stream),
            self.is_pending() && old(stream).failed() ==> r == Packet::Failed(PacketError::StreamError)
                && *final(stream) == *old(stream),
            self.is_pending() && !old(stream).failed() && old(stream).room() == 0 ==> r == self
                && *final(stream) == *old(stream),
            self.is_pending() && !old(stream).failed() && old(stream).room() > 0 ==> {
                let rem = (self.frame().len() - self.sent_count()) as nat;
                let chunk = if rem < MAX_SEND_CHUNK { rem } else { MAX_SEND_CHUNK as nat };
                let k = if chunk < old(stream).room() { chunk } else { old(stream).room() };
                &&& final(stream).written() == old(stream).written() + self.frame().subrange(
                    self.sent_count() as int,
                    (self.sent_count() + k) as int,
                )
                &&& final(stream).room() == old(stream).room() - k
                &&& self.sent_count() + k == self.frame().len() ==> r is Sent
                &&& self.sent_count() + k < self.frame().len() ==> r is InProgress && r.frame() == self.frame()
                    && r.sent_count() == self.sent_count() + k
            },
    {
        match self {
            Packet::InProgress(in_progress) => in_progress.advance(stream).0,
            Packet::Sent => Packet::Sent,
            Packet::Failed(e) => Packet::Failed(e),
        }
    }

    /// Writes chunk after chunk until the frame is sent or failed, or until a write
    /// makes no progress: as much of the frame goes out as the stream has room for.
    pub fn advance_until_would_block(self, stream: &mut ByteStream) -> (r: Packet)
        requires
            self.wf(),
            old(stream).wf(),
        ensures
            r.wf(),
            final(stream).wf(),
            final(stream).unread() == old(stream).unread(),
            final(stream).peer_closed() == old(stream).peer_closed(),
            final(stream).failed() == old(stream).failed(),
            !self.is_pending() ==> r == self && *final(stream) == *old(stream),
            self.is_pending() && old(stream).failed() ==> r == Packet::Failed(PacketError::StreamError)
                && *final(stream) == *old(stream),
            self.is_pending() && !old(stream).failed() && old(stream).room() == 0 ==> r == self
                && *final(stream) == *old(stream),
            self.is_pending() && !old(stream).failed() ==> {
                let rem = (self.frame().len() - self.sent_count()) as nat;
                let k = if rem < old(stream).room() { rem } else { old(stream).room() };
                &&& final(stream).written() == old(stream).written() + self.frame().subrange(
                    self.sent_count() as int,
                    (self.sent_count() + k) as int,
                )
                &&& final(stream).room() == old(stream).room() - k
                &&& self.sent_count() + k == self.frame().len() ==> r is Sent
                &&& self.sent_count() + k < self.frame().len() ==> r is InProgress && r.frame() == self.frame()
                    && r.sent_count() == self.sent_count() + k
            },
    {
        let ghost f = self.frame();
        let ghost s0 = self.sent_count();
        let ghost w0 = stream.written();
        let ghost room0 = stream.room();
        let ghost start = self;
        let ghost start_stream = *stream;
        let mut packet = self;
        let mut finished = false;
        let ghost mut w: nat = 0;
        proof {
            assert(w0 + f.subrange(s0 as int, s0 as int) =~= w0);
        }
        while !finished
            invariant
                stream.wf(),
                stream.unread() == old(stream).unread(),
                stream.peer_closed() == old(stream).peer_closed(),
                stream.failed() == old(stream).failed(),
                packet.wf(),
                !start.is_pending() ==> packet == start && *stream == start_stream,
                start.is_pending() ==> {
                    &&& s0 + w <= f.len()
                    &&& w <= room0
                    &&& stream.written() == w0 + f.subrange(s0 as int, (s0 + w) as int)
                    &&& stream.room() == room0 - w
                    &&& packet.is_pending() ==> packet.frame() == f && packet.sent_count() == s0 + w
                    &&& packet.is_pending() && finished ==> stream.room() == 0
                    &&& packet is Sent ==> s0 + w == f.len()
                    &&& packet is Failed ==> packet == Packet::Failed(PacketError::StreamError) && stream.failed()
                        && *stream == start_stream
                },
                w == 0 ==> *stream == start_stream,
                start.is_pending() && stream.failed() ==> w == 0 && (if finished {
                    packet == Packet::Failed(PacketError::StreamError)
                } else {
                    packet == start
                }),
                start.is_pending() && !stream.failed() && room0 == 0 ==> packet == start,
                start_stream == *old(stream),
            decreases (if packet.is_pending() { f.len() - packet.sent_count() } else { 0int }) + (if finished {
                0int
            } else {
                1int
            }),
        {
            match packet {
                Packet::InProgress(in_progress) => {
                    let ghost before = *stream;
                    let (next, n) = in_progress.advance(stream);
                    proof {
                        if n > 0 {
                            assert(w0 + f.subrange(s0 as int, (s0 + w) as int) + f.subrange((s0 + w) as int, (s0 + w + n) as int)
                                =~= w0 + f.subrange(s0 as int, (s0 + w + n) as int));
                            w = (w + n) as nat;
                        }
                    }
                    if n == 0 {
                        finished = true;
                    }
                    packet = next;
                },
                Packet::Sent => {
                    finished = true;
                    packet = Packet::Sent;
                },
                Packet::Failed(e) => {
                    finished = true;
                    packet = Packet::Failed(e);
                },
            }
        }
        packet
    }

    /// Writes until the frame is sent or failed. The stream must have room for
    /// the rest of the frame, unless it has failed.
    pub fn advance_until_sent(self, stream: &mut ByteStream) -> (r: Packet)
        requires
            self.wf(),
            old(stream).wf(),
            self.is_pending() && !old(stream).failed() ==> old(stream).room() >= self.frame().len()
                - self.sent_count(),
        ensures
            r.wf(),
            !r.is_pending(),
            final(stream).wf(),
            final(stream).unread() == old(stream).unread(),
            final(stream).peer_closed() == old(stream).peer_closed(),
            final(stream).failed() == old(stream).failed(),
            !self.is_pending() ==> r == self && *final(stream) == *old(stream),
            self.is_pending() && old(stream).failed() ==> r == Packet::Failed(PacketError::StreamError)
                && *final(stream) == *old(stream),
            self.is_pending() && !old(stream).failed() ==> {
                &&& r is Sent
                &&& final(stream).written() == old(stream).written() + self.frame().skip(
                    self.sent_count() as int,
                )
                &&& final(stream).room() == old(stream).room() - (self.frame().len() - self.sent_count())
            },
    {
        let ghost f = self.frame();
        let ghost s0 = self.sent_count();
        let r = self.advance_until_would_block(stream);
        proof {
            assert(f.subrange(s0 as int, f.len() as int) =~= f.skip(s0 as int));
        }
        r
    }
}

} // verus!
