//! A non-blocking byte stream held in memory. The transport (a socket, a test)
//! delivers the bytes that arrive from the peer and collects the bytes that the
//! library writes; reads and writes report progress the way a non-blocking
//! socket does.
use vstd::prelude::*;
use vstd::slice::slice_subrange;
use vstd::slice::slice_to_vec;

verus! {

/// What one read from a stream produced.
pub enum ReadOutcome {
    /// Some bytes, at least one.
    Data(Vec<u8>),
    /// Nothing is available now.
    WouldBlock,
    /// The peer has closed the stream: a read returned zero bytes.
    Closed,
    /// The stream reported an error other than would-block.
    Failed,
}

/// What one write to a stream produced.
pub enum WriteOutcome {
    /// This many bytes were accepted, at least one.
    Written(usize),
    /// The stream cannot take any byte now.
    WouldBlock,
    /// The stream reported an error other than would-block.
    Failed,
}

/// The two directions of a non-blocking stream: bytes that arrived from the
/// peer and wait to be read, and bytes written for the peer that wait for the
/// transport.
pub struct ByteStream {
    incoming: Vec<u8>,
    read_pos: usize,
    peer_closed: bool,
    failed: bool,
    outgoing: Vec<u8>,
    room: usize,
}

impl ByteStream {
    pub closed spec fn wf(&self) -> bool {
        self.read_pos <= self.incoming.len()
    }

    /// Bytes that arrived from the peer and were not read yet.
    pub closed spec fn unread(&self) -> Seq<u8> {
        self.incoming@.skip(self.read_pos as int)
    }

    /// The peer has closed its side: once the unread bytes are gone, reads
    /// report the end of the stream.
    pub closed spec fn peer_closed(&self) -> bool {
        self.peer_closed
    }

    /// The stream is broken: once the unread bytes are gone, reads report an
    /// error; writes report one at once.
    pub closed spec fn failed(&self) -> bool {
        self.failed
    }

    /// Bytes written and not yet collected by the transport.
    pub closed spec fn written(&self) -> Seq<u8> {
        self.outgoing@
    }

    /// How many more bytes writes accept before they would block.
    pub closed spec fn room(&self) -> nat {
        self.room as nat
    }

    /// A stream with nothing to read, open on both sides, whose writes never block
    /// in practice.
    pub fn new() -> (r: ByteStream)
        ensures
            r.wf(),
            r.unread() == Seq::<u8>::empty(),
            !r.peer_closed(),
            !r.failed(),
            r.written() == Seq::<u8>::empty(),
            r.room() == usize::MAX,
    {
        let r = ByteStream {
            incoming: Vec::new(),
            read_pos: 0,
            peer_closed: false,
            failed: false,
            outgoing: Vec::new(),
            room: usize::MAX,
        };
        assert(r.incoming@.skip(0) =~= Seq::<u8>::empty());
        r
    }

    /// Bytes that arrived from the peer become readable after the unread ones.
    pub fn deliver(&mut self, bytes: &[u8])
        requires
            old(self).wf(),
        ensures
            final(self).wf(),
            final(self).unread() == old(self).unread() + bytes@,
            final(self).peer_closed() == old(self).peer_closed(),
            final(self).failed() == old(self).failed(),
            final(self).written() == old(self).written(),
            final(self).room() == old(self).room(),
    {
        if self.read_pos == self.incoming.len() {
            self.incoming.clear();
            self.read_pos = 0;
        }
        self.incoming.extend_from_slice(bytes);
        assert(self.incoming@.skip(self.read_pos as int) =~= old(self).unread() + bytes@);
    }

    /// The peer closed its side of the stream.
    pub fn close(&mut self)
        requires
            old(self).wf(),
        ensures
            final(self).wf(),
            final(self).unread() == old(self).unread(),
            final(self).peer_closed(),
            final(self).failed() == old(self).failed(),
            final(self).written() == old(self).written(),
            final(self).room() == old(self).room(),
    {
        self.peer_closed = true;
    }

    /// The stream reported an error.
    pub fn fail(&mut self)
        requires
            old(self).wf(),
        ensures
            final(self).wf(),
            final(self).unread() == old(self).unread(),
            final(self).peer_closed() == old(self).peer_closed(),
            final(self).failed(),
            final(self).written() == old(self).written(),
            final(self).room() == old(self).room(),
    {
        self.failed = true;
    }

    /// Sets how many more bytes writes accept before they would block.
    pub fn set_room(&mut self, room: usize)
        requires
            old(self).wf(),
        ensures
            final(self).wf(),
            final(self).unread() == old(self).unread(),
            final(self).peer_closed() == old(self).peer_closed(),
            final(self).failed() == old(self).failed(),
            final(self).written() == old(self).written(),
            final(self).room() == room,
    {
        self.room = room;
    }

    /// Hands the written bytes over to the transport.
    pub fn take_written(&mut self) -> (r: Vec<u8>)
        requires
            old(self).wf(),
        ensures
            r@ == old(self).written(),
            final(self).wf(),
            final(self).unread() == old(self).unread(),
            final(self).peer_closed() == old(self).peer_closed(),
            final(self).failed() == old(self).failed(),
            final(self).written() == Seq::<u8>::empty(),
            final(self).room() == old(self).room(),
    {
        let mut r = Vec::new();
        std::mem::swap(&mut r, &mut self.outgoing);
        r
    }

    pub fn unread_len(&self) -> (r: usize)
        requires
            self.wf(),
        ensures
            r == self.unread().len(),
    {
        self.incoming.len() - self.read_pos
    }

    pub fn is_failed(&self) -> (r: bool)
        ensures
            r == self.failed(),
    {
        self.failed
    }

    /// One non-blocking read of at most `max` bytes. Unread bytes come first, in
    /// the order they arrived; without them the read reports the error, the end
    /// of the stream, or that it would block.
    pub fn read(&mut self, max: usize) -> (r: ReadOutcome)
        requires
            old(self).wf(),
            max > 0,
        ensures
            final(self).wf(),
            final(self).peer_closed() == old(self).peer_closed(),
            final(self).failed() == old(self).failed(),
            final(self).written() == old(self).written(),
            final(self).room() == old(self).room(),
            old(self).unread().len() > 0 ==> {
                let k = if old(self).unread().len() < max { old(self).unread().len() as int } else { max as int };
                &&& r matches ReadOutcome::Data(d) && d@ == old(self).unread().take(k)
                &&& final(self).unread() == old(self).unread().skip(k)
            },
            old(self).unread().len() == 0 ==> {
                &&& final(self).unread() == old(self).unread()
                &&& old(self).failed() ==> r is Failed
                &&& !old(self).failed() && old(self).peer_closed() ==> r is Closed
                &&& !old(self).failed() && !old(self).peer_closed() ==> r is WouldBlock
            },
    {
        let available = self.incoming.len() - self.read_pos;
        if available == 0 {
            if self.failed {
                ReadOutcome::Failed
            } else if self.peer_closed {
                ReadOutcome::Closed
            } else {
                ReadOutcome::WouldBlock
            }
        } else {
            let k = if available < max { available } else { max };
            let start = self.read_pos;
            let d = slice_to_vec(slice_subrange(self.incoming.as_slice(), start, start + k));
            self.read_pos = start + k;
            assert(d@ =~= old(self).unread().take(k as int));
            assert(self.incoming@.skip(self.read_pos as int) =~= old(self).unread().skip(k as int));
            ReadOutcome::Data(d)
        }
    }

    /// One non-blocking write: accepts as many of `bytes` as there is room for.
    pub fn write(&mut self, bytes: &[u8]) -> (r: WriteOutcome)
        requires
            old(self).wf(),
            bytes@.len() > 0,
        ensures
            final(self).wf(),
            final(self).unread() == old(self).unread(),
            final(self).peer_closed() == old(self).peer_closed(),
            final(self).failed() == old(self).failed(),
            old(self).failed() ==> r is Failed && *final(self) == *old(self),
            !old(self).failed() && old(self).room() == 0 ==> r is WouldBlock && *final(self) == *old(self),
            !old(self).failed() && old(self).room() > 0 ==> {
                let k = if bytes@.len() < old(self).room() { bytes@.len() as int } else { old(self).room() as int };
                &&& r == WriteOutcome::Written(k as usize)
                &&& final(self).written() == old(self).written() + bytes@.take(k)
                &&& final(self).room() == old(self).room() - k
            },
    {
        if self.failed {
            WriteOutcome::Failed
        } else if self.room == 0 {
            WriteOutcome::WouldBlock
        } else {
            let k = if bytes.len() < self.room { bytes.len() } else { self.room };
            let part = slice_subrange(bytes, 0, k);
            self.outgoing.extend_from_slice(part);
            self.room = self.room - k;
            assert(part@ =~= bytes@.take(k as int));
            WriteOutcome::Written(k)
        }
    }
}

} // verus!
