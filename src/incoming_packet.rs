//! Receive side of the framing protocol: a state machine that reads one frame
//! from a non-blocking stream, a few bytes at a time.
use vstd::prelude::*;

use crate::stream::ByteStream;
use crate::stream::ReadOutcome;
use crate::wire::be_value;
use crate::wire::declared_len;
use crate::wire::frame_of;
use crate::wire::valid_payload;
use crate::wire::header_of;
use crate::wire::lemma_header_value;
use crate::wire::valid_len;
use crate::wire::HEADER_SIZE;
use crate::wire::MAX_PACKET_SIZE;

verus! {

/// `256` to the power `n`.
pub open spec fn pow256(n: nat) -> nat
    decreases n,
{
    if n == 0 {
        1
    } else {
        pow256((n - 1) as nat) * 256
    }
}

proof fn lemma_be_bound(s: Seq<u8>)
    ensures
        be_value(s) < pow256(s.len()),
    decreases s.len(),
{
    if s.len() > 0 {
        lemma_be_bound(s.drop_last());
        let a = be_value(s.drop_last());
        let b = s.last() as nat;
        let p = pow256(s.drop_last().len());
        assert(a * 256 + b < p * 256) by (nonlinear_arith)
            requires
                a < p,
                b < 256,
        ;
    }
}

/// The header bytes of a four-byte sequence are those that its value announces.
proof fn lemma_header_of_bytes(c: Seq<u8>)
    requires
        c.len() == 4,
    ensures
        header_of(be_value(c)) == c,
        be_value(c) < 0x1_0000_0000,
{
    reveal_with_fuel(be_value, 5);
    assert(c.drop_last().drop_last().drop_last().drop_last() =~= Seq::<u8>::empty());
    let a = c[0] as u32;
    let b = c[1] as u32;
    let d = c[2] as u32;
    let e = c[3] as u32;
    assert(c.drop_last().drop_last().drop_last().last() == c[0]);
    assert(c.drop_last().drop_last().last() == c[1]);
    assert(c.drop_last().last() == c[2]);
    assert(be_value(c) == ((a as nat * 256 + b as nat) * 256 + d as nat) * 256 + e as nat);
    assert(a < 256 && b < 256 && d < 256 && e < 256);
    let v = (((a * 256 + b) * 256 + d) * 256 + e) as u32;
    assert(((a * 256 + b) * 256 + d) * 256 + e < 0x1_0000_0000) by (nonlinear_arith)
        requires
            a < 256,
            b < 256,
            d < 256,
            e < 256,
    ;
    assert(v as nat == be_value(c));
    assert(v == a * 16777216 + b * 65536 + d * 256 + e) by (nonlinear_arith)
        requires
            v == ((a * 256 + b) * 256 + d) * 256 + e,
            a < 256,
            b < 256,
            d < 256,
            e < 256,
    ;
    assert(a < 256 && b < 256 && d < 256 && e < 256 && v == a * 16777216 + b * 65536 + d * 256 + e ==> (
    (v / 16777216) % 256 == a && (v / 65536) % 256 == b && (v / 256) % 256 == d && v % 256 == e))
        by (bit_vector);
    assert(header_of(be_value(c)) =~= c);
}

/// The first part of a frame: its four-byte length header, read so far.
pub struct PacketReadingSize {
    size: u32,
    read: usize,
    header: Ghost<Seq<u8>>,
}

/// The payload of a frame whose header has been read.
pub struct PacketInProgress {
    received: usize,
    data: Vec<u8>,
}

/// Why reading a frame failed.
#[derive(Debug, Clone, Copy, PartialEq, Eq, Structural)]
pub enum PacketError {
    /// The stream reported an error other than would-block.
    StreamError,
    /// The peer closed the stream before the frame was complete.
    StreamClosed,
    /// The header declared a length of zero, or one that is too large.
    SizeTooBig(usize),
}

/// Where reading one frame stands.
pub enum Packet {
    /// Reading the length header.
    Size(PacketReadingSize),
    /// Reading the payload.
    InProgress(PacketInProgress),
    /// The whole payload has been read.
    Received(Vec<u8>),
    /// Reading the frame failed.
    Failed(PacketError),
}

/// Neither a whole frame nor a header that declares an invalid length: more bytes
/// may follow within the same frame.
pub open spec fn partial_frame(c: Seq<u8>) -> bool {
    c.len() < 4 || (valid_len(declared_len(c)) && c.len() < 4 + declared_len(c))
}

/// How many more bytes the frame that begins with the partial frame `c` needs
/// before its next step.
pub open spec fn wanted_after(c: Seq<u8>) -> nat {
    if c.len() < 4 {
        (4 - c.len()) as nat
    } else {
        (4 + declared_len(c) - c.len()) as nat
    }
}

/// What one read step of a frame reader does, as seen from outside: `c` is what
/// the frame had read before, `u` the bytes the stream held, `r` the new state and
/// `k` the number of bytes taken from the stream.
pub open spec fn stepped(c: Seq<u8>, u: Seq<u8>, failed: bool, closed: bool, r: Packet, k: nat) -> bool {
    if u.len() > 0 {
        let n = if u.len() < wanted_after(c) { u.len() } else { wanted_after(c) };
        k == n && r.reached(c + u.take(n as int))
    } else {
        &&& k == 0
        &&& failed ==> r == Packet::Failed(PacketError::StreamError)
        &&& !failed && closed ==> r == Packet::Failed(PacketError::StreamClosed)
        &&& !failed && !closed ==> r.reached(c)
    }
}

/// What driving a frame reader until the stream has nothing more for it does: `c`
/// is what the frame had read before, `u` the bytes the stream held, `r` the new
/// state and `k` the number of bytes taken from the stream. The reader takes
/// every byte while the frame stays partial, and stops at the end of the frame or
/// of a header that declares an invalid length.
pub open spec fn drained(c: Seq<u8>, u: Seq<u8>, failed: bool, closed: bool, r: Packet, k: nat) -> bool {
    if partial_frame(c + u) {
        &&& k == u.len()
        &&& failed ==> r == Packet::Failed(PacketError::StreamError)
        &&& !failed && closed ==> r == Packet::Failed(PacketError::StreamClosed)
        &&& !failed && !closed ==> r.reached(c + u)
    } else {
        &&& k <= u.len()
        &&& !partial_frame(c + u.take(k as int))
        &&& r.reached(c + u.take(k as int))
    }
}

/// Every prefix of a partial frame is partial.
pub proof fn lemma_partial_prefix(s: Seq<u8>, n: int)
    requires
        partial_frame(s),
        0 <= n <= s.len(),
    ensures
        partial_frame(s.take(n)),
{
    if n >= 4 {
        assert(s.take(n).take(4) =~= s.take(4));
    }
}

/// What holds while a frame reader is driven: `taken` bytes of `u` have been
/// read after the bytes `c`.
pub open spec fn drain_inv(c: Seq<u8>, u: Seq<u8>, failed: bool, closed: bool, p: Packet, taken: nat, finished: bool) -> bool {
    &&& taken <= u.len()
    &&& p.in_flight() ==> p.reached(c + u.take(taken as int)) && partial_frame(c + u.take(taken as int))
    &&& p.in_flight() && finished ==> taken == u.len() && !failed && !closed
    &&& !p.in_flight() ==> drained(c, u, failed, closed, p, taken)
}

#[verifier::spinoff_prover]
#[verifier::rlimit(60)]
proof fn lemma_drain_step(c: Seq<u8>, u: Seq<u8>, failed: bool, closed: bool, p: Packet, taken: nat, next: Packet, n: nat)
    requires
        drain_inv(c, u, failed, closed, p, taken, false),
        p.in_flight(),
        n <= u.len() - taken,
        stepped(p.consumed(), u.skip(taken as int), failed, closed, next, n),
    ensures
        drain_inv(c, u, failed, closed, next, taken + n, n == 0),
{
    p.lemma_in_flight_partial();
    let seen = c + u.take(taken as int);
    let rest = u.skip(taken as int);
    let k = (taken + n) as int;
    let after = c + u.take(k);
    assert(p.consumed() == seen);
    assert(seen + rest =~= c + u);
    assert(seen + rest.take(n as int) =~= after);
    if rest.len() == 0 {
        assert(taken == u.len());
        assert(u.take(taken as int) =~= u);
        assert(n == 0);
        assert(after == c + u);
        if failed {
            assert(drained(c, u, failed, closed, next, taken + n));
        } else if closed {
            assert(drained(c, u, failed, closed, next, taken + n));
        } else {
            assert(next.reached(after));
        }
    } else {
        assert(n > 0);
        assert(next.reached(after));
        if partial_frame(after) {
            assert(next.in_flight());
        } else {
            if partial_frame(c + u) {
                lemma_partial_prefix(c + u, after.len() as int);
                assert((c + u).take(after.len() as int) =~= after);
            }
            assert(drained(c, u, failed, closed, next, taken + n));
        }
    }
}

/// Reading the frame of a valid payload, a reader that has taken the first `k`
/// bytes is reading the header while `k` is below four, then the payload, and
/// has received exactly the payload once the last byte is read.
pub proof fn law_reader_progress(p: Seq<u8>, k: int, s: Packet)
    requires
        valid_payload(p),
        0 <= k <= frame_of(p).len(),
        s.reached(frame_of(p).take(k)),
    ensures
        k < 4 ==> s is Size,
        4 <= k < frame_of(p).len() ==> s is InProgress,
        k == frame_of(p).len() ==> (s matches Packet::Received(d) && d@ == p),
{
    let f = frame_of(p);
    let c = f.take(k);
    lemma_header_value(p.len());
    if k >= 4 {
        assert(c.take(4) =~= header_of(p.len()));
        assert(declared_len(c) == p.len());
    }
    if k == f.len() {
        assert(c.skip(4) =~= p);
    }
}

impl PacketReadingSize {
    pub closed spec fn wf(&self) -> bool {
        &&& self.read < 4
        &&& self.header@.len() == self.read
        &&& be_value(self.header@) == self.size
    }

    pub closed spec fn consumed(&self) -> Seq<u8> {
        self.header@
    }

    /// One read of the header bytes still missing.
    fn advance(self, stream: &mut ByteStream) -> (r: (Packet, usize))
        requires
            self.wf(),
            old(stream).wf(),
        ensures
            final(stream).wf(),
            final(stream).peer_closed() == old(stream).peer_closed(),
            final(stream).failed() == old(stream).failed(),
            final(stream).written() == old(stream).written(),
            final(stream).room() == old(stream).room(),
            r.1 <= old(stream).unread().len(),
            final(stream).unread() == old(stream).unread().skip(r.1 as int),
            stepped(self.consumed(), old(stream).unread(), old(stream).failed(), old(stream).peer_closed(), r.0, r.1 as nat),
            old(stream).unread().len() == 0 && !old(stream).failed() && !old(stream).peer_closed() ==> r.0 == Packet::Size(self),
    {
        let mut this = self;
        match stream.read(HEADER_SIZE - this.read) {
            ReadOutcome::Data(bytes) => {
                let n = bytes.len();
                let ghost c = this.header@;
                let mut j: usize = 0;
                while j < n
                    invariant
                        0 <= j <= n,
                        n == bytes@.len(),
                        c.len() + n <= 4,
                        this.read == c.len() + j,
                        this.header@ == c + bytes@.take(j as int),
                        be_value(this.header@) == this.size,
                    decreases n - j,
                {
                    proof {
                        lemma_be_bound(this.header@);
                        assert(pow256(this.header@.len()) <= 16777216) by {
                            reveal_with_fuel(pow256, 4);
                        }
                    }
                    let b = bytes[j];
                    this.size = this.size * 256 + b as u32;
                    this.header = Ghost(this.header@.push(b));
                    this.read = this.read + 1;
                    j = j + 1;
                    proof {
                        assert(this.header@.drop_last() == c + bytes@.take(j - 1));
                        assert(c + bytes@.take(j as int) =~= (c + bytes@.take(j - 1)).push(b));
                    }
                }
                assert(bytes@.take(n as int) =~= bytes@);
                let ghost c2 = c + bytes@;
                if this.read == HEADER_SIZE {
                    proof {
                        assert(c2.take(4) =~= c2);
                        lemma_header_of_bytes(c2);
                    }
                    if this.size == 0 || this.size >= MAX_PACKET_SIZE {
                        (Packet::Failed(PacketError::SizeTooBig(this.size as usize)), n)
                    } else {
                        let data: Vec<u8> = vec![0u8; this.size as usize];
                        let next = PacketInProgress { received: 0, data };
                        proof {
                            assert(next.consumed() =~= c2);
                        }
                        (Packet::InProgress(next), n)
                    }
                } else {
                    (Packet::Size(this), n)
                }
            },
            ReadOutcome::WouldBlock => (Packet::Size(this), 0),
            ReadOutcome::Closed => (Packet::Failed(PacketError::StreamClosed), 0),
            ReadOutcome::Failed => (Packet::Failed(PacketError::StreamError), 0),
        }
    }

    /// Number of header bytes read so far.
    pub fn read(&self) -> (r: usize)
        requires
            self.wf(),
        ensures
            r == self.consumed().len(),
    {
        self.read
    }

    /// The value of the header bytes read so far.
    pub fn size(&self) -> (r: u32)
        requires
            self.wf(),
        ensures
            r == be_value(self.consumed()),
    {
        self.size
    }
}

impl PacketInProgress {
    pub closed spec fn wf(&self) -> bool {
        &&& valid_len(self.data.len() as nat)
        &&& self.received < self.data.len()
    }

    pub closed spec fn consumed(&self) -> Seq<u8> {
        header_of(self.data.len() as nat) + self.data@.take(self.received as int)
    }

    /// One read of the payload bytes still missing.
    fn advance(self, stream: &mut ByteStream) -> (r: (Packet, usize))
        requires
            self.wf(),
            old(stream).wf(),
        ensures
            final(stream).wf(),
            final(stream).peer_closed() == old(stream).peer_closed(),
            final(stream).failed() == old(stream).failed(),
            final(stream).written() == old(stream).written(),
            final(stream).room() == old(stream).room(),
            r.1 <= old(stream).unread().len(),
            final(stream).unread() == old(stream).unread().skip(r.1 as int),
            stepped(self.consumed(), old(stream).unread(), old(stream).failed(), old(stream).peer_closed(), r.0, r.1 as nat),
            old(stream).unread().len() == 0 && !old(stream).failed() && !old(stream).peer_closed() ==> r.0 == Packet::InProgress(self),
    {
        let mut this = self;
        let ghost c = this.consumed();
        let ghost len = this.data.len() as nat;
        proof {
            lemma_header_value(len);
            assert(c.take(4) =~= header_of(len));
            assert(declared_len(c) == len);
        }
        match stream.read(this.data.len() - this.received) {
            ReadOutcome::Data(bytes) => {
                let n = bytes.len();
                let start = this.received;
                let ghost before = this.data@;
                let mut j: usize = 0;
                while j < n
                    invariant
                        0 <= j <= n,
                        n == bytes@.len(),
                        start + n <= len,
                        this.data.len() == len,
                        this.data@.take(start + j) == before.take(start as int) + bytes@.take(j as int),
                    decreases n - j,
                {
                    let b = bytes[j];
                    let ghost prev = this.data@;
                    this.data.set(start + j, b);
                    j = j + 1;
                    proof {
                        assert(this.data@.take(start + j) =~= prev.take(start + j - 1).push(b));
                        assert(before.take(start as int) + bytes@.take(j as int) =~= (before.take(start as int)
                            + bytes@.take(j - 1)).push(b));
                    }
                }
                this.received = start + n;
                proof {
                    assert(bytes@.take(n as int) =~= bytes@);
                    assert(this.consumed() =~= c + bytes@);
                    assert((c + bytes@).take(4) =~= c.take(4));
                    assert(bytes@ == old(stream).unread().take(n as int));
                }
                if this.received < this.data.len() {
                    (Packet::InProgress(this), n)
                } else {
                    proof {
                        assert(this.data@.take(len as int) =~= this.data@);
                        assert((c + bytes@).skip(4) =~= this.data@);
                    }
                    (Packet::Received(this.data), n)
                }
            },
            ReadOutcome::WouldBlock => (Packet::InProgress(this), 0),
            ReadOutcome::Closed => (Packet::Failed(PacketError::StreamClosed), 0),
            ReadOutcome::Failed => (Packet::Failed(PacketError::StreamError), 0),
        }
    }

    /// Number of payload bytes received so far.
    pub fn received(&self) -> (r: usize)
        requires
            self.wf(),
        ensures
            r == self.consumed().len() - 4,
    {
        self.received
    }

    /// The length the header declared.
    pub fn expected(&self) -> (r: usize)
        requires
            self.wf(),
        ensures
            r == declared_len(self.consumed()),
    {
        proof {
            lemma_header_value(self.data.len() as nat);
            assert(self.consumed().take(4) =~= header_of(self.data.len() as nat));
        }
        self.data.len()
    }
}

impl Packet {
    /// Still reading: neither received nor failed.
    pub open spec fn in_flight(self) -> bool {
        self is Size || self is InProgress
    }

    pub closed spec fn wf(self) -> bool {
        match self {
            Packet::Size(s) => s.wf(),
            Packet::InProgress(p) => p.wf(),
            _ => true,
        }
    }

    /// The bytes of the frame read so far, header included.
    pub closed spec fn consumed(self) -> Seq<u8> {
        match self {
            Packet::Size(s) => s.consumed(),
            Packet::InProgress(p) => p.consumed(),
            _ => Seq::empty(),
        }
    }

    /// `self` is where reading a frame from a fresh start stands once the bytes `c`
    /// have been read.
    pub open spec fn reached(self, c: Seq<u8>) -> bool {
        if partial_frame(c) {
            &&& self.in_flight()
            &&& self.wf()
            &&& self.consumed() == c
            &&& c.len() < 4 ==> self is Size
            &&& c.len() >= 4 ==> self is InProgress
        } else if !valid_len(declared_len(c)) {
            c.len() == 4 && self == Packet::Failed(PacketError::SizeTooBig(declared_len(c) as usize))
        } else {
            &&& c.len() == 4 + declared_len(c)
            &&& self matches Packet::Received(d) && d@ == c.skip(4)
        }
    }

    /// A frame in progress stays in progress when the bytes it wants do not come.
    pub proof fn lemma_in_flight_partial(self)
        requires
            self.in_flight(),
            self.wf(),
        ensures
            partial_frame(self.consumed()),
            self.reached(self.consumed()),
            wanted_after(self.consumed()) > 0,
    {
        if let Packet::InProgress(p) = self {
            lemma_header_value(p.data.len() as nat);
            assert(p.consumed().take(4) =~= header_of(p.data.len() as nat));
        }
    }

    /// A frame reader that has read nothing yet.
    pub fn new() -> (r: Packet)
        ensures
            r is Size,
            r.reached(Seq::empty()),
    {
        Packet::Size(PacketReadingSize { size: 0, read: 0, header: Ghost(Seq::empty()) })
    }

    /// One read step; a received or failed frame is left as it is.
    fn step(self, stream: &mut ByteStream) -> (r: (Packet, usize))
        requires
            self.in_flight() ==> self.wf(),
            old(stream).wf(),
        ensures
            final(stream).wf(),
            final(stream).peer_closed() == old(stream).peer_closed(),
            final(stream).failed() == old(stream).failed(),
            final(stream).written() == old(stream).written(),
            final(stream).room() == old(stream).room(),
            r.1 <= old(stream).unread().len(),
            final(stream).unread() == old(stream).unread().skip(r.1 as int),
            self.in_flight() ==> stepped(self.consumed(), old(stream).unread(), old(stream).failed(),
                old(stream).peer_closed(), r.0, r.1 as nat),
            !self.in_flight() ==> r.0 == self && r.1 == 0 && *final(stream) == *old(stream),
            self.in_flight() && old(stream).unread().len() == 0 && !old(stream).failed()
                && !old(stream).peer_closed() ==> r.0 == self,
    {
        match self {
            Packet::Size(state) => state.advance(stream),
            Packet::InProgress(state) => state.advance(stream),
            Packet::Received(data) => {
                assert(old(stream).unread().skip(0) =~= old(stream).unread());
                (Packet::Received(data), 0)
            },
            Packet::Failed(err) => {
                assert(old(stream).unread().skip(0) =~= old(stream).unread());
                (Packet::Failed(err), 0)
            },
        }
    }

    /// Performs at most one read on the stream: the header bytes still missing,
    /// or the payload bytes still missing. A received or failed frame is left as
    /// it is, and so is a frame whose read would block.
    pub fn advance(self, stream: &mut ByteStream) -> (r: Packet)
        requires
            self.in_flight() ==> self.wf(),
            old(stream).wf(),
        ensures
            final(stream).wf(),
            final(stream).peer_closed() == old(stream).peer_closed(),
            final(stream).failed() == old(stream).failed(),
            final(stream).written() == old(stream).written(),
            final(stream).room() == old(stream).room(),
            old(stream).unread().len() >= final(stream).unread().len(),
            final(stream).unread() == old(stream).unread().skip(
                old(stream).unread().len() - final(stream).unread().len(),
            ),
            self.in_flight() ==> stepped(self.consumed(), old(stream).unread(), old(stream).failed(),
                old(stream).peer_closed(), r, (old(stream).unread().len() - final(stream).unread().len()) as nat),
            !self.in_flight() ==> r == self && *final(stream) == *old(stream),
            old(stream).unread().len() == 0 && !old(stream).failed() && !old(stream).peer_closed() ==> r == self,
    {
        let (next, _n) = self.step(stream);
        proof {
            if !self.in_flight() {
                assert(final(stream).unread() =~= old(stream).unread());
            }
        }
        next
    }

    /// Reads until the frame is received or failed, or until a read makes no
    /// progress.
    pub fn advance_until_would_block(self, stream: &mut ByteStream) -> (r: Packet)
        requires
            self.in_flight() ==> self.wf(),
            old(stream).wf(),
        ensures
            final(stream).wf(),
            final(stream).peer_closed() == old(stream).peer_closed(),
            final(stream).failed() == old(stream).failed(),
            final(stream).written() == old(stream).written(),
            final(stream).room() == old(stream).room(),
            old(stream).unread().len() >= final(stream).unread().len(),
            final(stream).unread() == old(stream).unread().skip(
                old(stream).unread().len() - final(stream).unread().len(),
            ),
            self.in_flight() ==> drained(self.consumed(), old(stream).unread(), old(stream).failed(),
                old(stream).peer_closed(), r, (old(stream).unread().len() - final(stream).unread().len()) as nat),
            !self.in_flight() ==> r == self && *final(stream) == *old(stream),
            old(stream).unread().len() == 0 && !old(stream).failed() && !old(stream).peer_closed() ==> r == self,
    {
        if !self.is_in_flight() {
            proof {
                assert(stream.unread() =~= old(stream).unread().skip(0));
            }
            return self;
        }
        let ghost c = self.consumed();
        let ghost u = stream.unread();
        let ghost start = self;
        proof {
            self.lemma_in_flight_partial();
            assert(c + u.take(0) =~= c);
        }
        let mut packet = self;
        let mut finished = false;
        let mut taken: usize = 0;
        while !finished
            invariant
                stream.wf(),
                stream.peer_closed() == old(stream).peer_closed(),
                stream.failed() == old(stream).failed(),
                stream.written() == old(stream).written(),
                stream.room() == old(stream).room(),
                u == old(stream).unread(),
                taken <= u.len(),
                stream.unread() == u.skip(taken as int),
                drain_inv(c, u, stream.failed(), stream.peer_closed(), packet, taken as nat, finished),
                u.len() == 0 && !stream.failed() && !stream.peer_closed() ==> packet == start,
            decreases stream.unread().len() + (if finished { 0int } else { 1int }),
        {
            let ghost before = packet;
            let (next, n) = packet.step(stream);
            proof {
                if before.in_flight() {
                    lemma_drain_step(c, u, stream.failed(), stream.peer_closed(), before, taken as nat, next, n as nat);
                }
                assert(u.skip(taken as int).skip(n as int) =~= u.skip(taken + n));
            }
            packet = next;
            taken = taken + n;
            if n == 0 {
                finished = true;
            }
        }
        proof {
            assert(old(stream).unread().len() - stream.unread().len() == taken);
            if packet.in_flight() {
                assert(u.take(taken as int) =~= u);
            }
        }
        packet
    }

    /// Reads until the frame is received or failed, from a stream whose peer has
    /// closed it or that has failed, so that no read would block: the frame ends
    /// with the bytes the stream holds.
    pub fn advance_until_received(self, stream: &mut ByteStream) -> (r: Packet)
        requires
            self.in_flight() ==> self.wf(),
            old(stream).wf(),
            old(stream).peer_closed() || old(stream).failed(),
        ensures
            !r.in_flight(),
            final(stream).wf(),
            final(stream).peer_closed() == old(stream).peer_closed(),
            final(stream).failed() == old(stream).failed(),
            final(stream).written() == old(stream).written(),
            final(stream).room() == old(stream).room(),
            old(stream).unread().len() >= final(stream).unread().len(),
            final(stream).unread() == old(stream).unread().skip(
                old(stream).unread().len() - final(stream).unread().len(),
            ),
            self.in_flight() ==> drained(self.consumed(), old(stream).unread(), old(stream).failed(),
                old(stream).peer_closed(), r, (old(stream).unread().len() - final(stream).unread().len()) as nat),
            !self.in_flight() ==> r == self && *final(stream) == *old(stream),
    {
        self.advance_until_would_block(stream)
    }

    /// Still reading: neither received nor failed.
    pub fn is_in_flight(&self) -> (r: bool)
        ensures
            r == self.in_flight(),
    {
        match self {
            Packet::Size(_) => true,
            Packet::InProgress(_) => true,
            _ => false,
        }
    }
}

} // verus!
