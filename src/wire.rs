//! The wire format: every payload travels as a four-byte big-endian length
//! followed by the payload bytes.
use vstd::prelude::*;

verus! {

/// Declared lengths must stay strictly below this bound.
pub const MAX_PACKET_SIZE: u32 = 65536;

/// Number of bytes in a frame header.
pub const HEADER_SIZE: usize = 4;

/// Largest number of bytes handed to a single write.
pub const MAX_SEND_CHUNK: usize = 1024;

/// The unsigned integer that the bytes of `s` spell, most significant first.
pub open spec fn be_value(s: Seq<u8>) -> nat
    decreases s.len(),
{
    if s.len() == 0 {
        0
    } else {
        be_value(s.drop_last()) * 256 + s.last() as nat
    }
}

/// A length that a frame may declare.
pub open spec fn valid_len(n: nat) -> bool {
    1 <= n < MAX_PACKET_SIZE
}

/// A payload that fits in one frame.
pub open spec fn valid_payload(p: Seq<u8>) -> bool {
    valid_len(p.len())
}

/// The four header bytes that announce a payload of `n` bytes.
pub open spec fn header_of(n: nat) -> Seq<u8> {
    seq![
        ((n / 16777216) % 256) as u8,
        ((n / 65536) % 256) as u8,
        ((n / 256) % 256) as u8,
        (n % 256) as u8,
    ]
}

/// One payload as it appears on the wire.
pub open spec fn frame_of(p: Seq<u8>) -> Seq<u8> {
    header_of(p.len()) + p
}

/// A sequence of payloads as they appear on the wire, one after another.
pub open spec fn frames_of(ps: Seq<Seq<u8>>) -> Seq<u8>
    decreases ps.len(),
{
    if ps.len() == 0 {
        Seq::empty()
    } else {
        frames_of(ps.drop_last()) + frame_of(ps.last())
    }
}

/// The length declared by the header at the front of `s` (at least four bytes).
pub open spec fn declared_len(s: Seq<u8>) -> nat {
    be_value(s.take(4))
}

/// Cuts a byte stream into the payloads of the complete frames at its front, and
/// the bytes that follow them: a frame still in progress, or a frame whose header
/// declares an invalid length together with everything after it.
pub open spec fn split_frames(s: Seq<u8>) -> (Seq<Seq<u8>>, Seq<u8>)
    decreases s.len(),
{
    if s.len() < 4 || !valid_len(declared_len(s)) || s.len() < 4 + declared_len(s) {
        (Seq::empty(), s)
    } else {
        let n = declared_len(s) as int;
        let rest = split_frames(s.skip(4 + n));
        (seq![s.subrange(4, 4 + n)] + rest.0, rest.1)
    }
}

/// The payloads of the complete frames at the front of `s`.
pub open spec fn payloads_in(s: Seq<u8>) -> Seq<Seq<u8>> {
    split_frames(s).0
}

/// The bytes of `s` after its complete frames.
pub open spec fn leftover_of(s: Seq<u8>) -> Seq<u8> {
    split_frames(s).1
}

/// The stream holds a header that declares an invalid length.
pub open spec fn has_invalid_header(s: Seq<u8>) -> bool {
    leftover_of(s).len() >= 4 && !valid_len(declared_len(leftover_of(s)))
}

pub proof fn lemma_header_value(n: nat)
    requires
        n < 0x1_0000_0000,
    ensures
        be_value(header_of(n)) == n,
        header_of(n).len() == 4,
{
    let h = header_of(n);
    reveal_with_fuel(be_value, 5);
    assert(h.drop_last().drop_last().drop_last().drop_last() =~= Seq::<u8>::empty());
    assert(h.drop_last().drop_last().drop_last().last() == h[0]);
    assert(h.drop_last().drop_last().last() == h[1]);
    assert(h.drop_last().last() == h[2]);
    assert(h.last() == h[3]);
    let x = n as u32;
    assert(((x / 16777216) % 256) * 16777216 + ((x / 65536) % 256) * 65536 + ((x / 256) % 256) * 256
        + x % 256 == x) by (bit_vector);
}


/// Appending bytes to a stream leaves its complete frames in place and goes on
/// from the bytes that followed them.
pub proof fn lemma_split_append(s: Seq<u8>, t: Seq<u8>)
    ensures
        split_frames(s + t) == (
            payloads_in(s) + payloads_in(leftover_of(s) + t),
            leftover_of(leftover_of(s) + t),
        ),
    decreases s.len(),
{
    let st = s + t;
    if s.len() < 4 || !valid_len(declared_len(s)) || s.len() < 4 + declared_len(s) {
        assert(payloads_in(s) =~= Seq::<Seq<u8>>::empty());
        assert(payloads_in(s) + payloads_in(s + t) =~= payloads_in(s + t));
    } else {
        let n = declared_len(s) as int;
        assert(st.take(4) =~= s.take(4));
        assert(declared_len(st) == declared_len(s));
        assert(st.skip(4 + n) =~= s.skip(4 + n) + t);
        assert(st.subrange(4, 4 + n) =~= s.subrange(4, 4 + n));
        lemma_split_append(s.skip(4 + n), t);
        let rest = split_frames(s.skip(4 + n));
        assert(leftover_of(s) == rest.1);
        assert(payloads_in(s) == seq![s.subrange(4, 4 + n)] + rest.0);
        assert(payloads_in(st) == seq![s.subrange(4, 4 + n)] + payloads_in(s.skip(4 + n) + t));
        assert(payloads_in(st) =~= payloads_in(s) + payloads_in(leftover_of(s) + t));
    }
}

/// A single frame splits into its payload and nothing else.
pub proof fn lemma_split_one_frame(p: Seq<u8>)
    requires
        valid_payload(p),
    ensures
        split_frames(frame_of(p)) == (seq![p], Seq::<u8>::empty()),
{
    let f = frame_of(p);
    lemma_header_value(p.len());
    assert(f.take(4) =~= header_of(p.len()));
    assert(declared_len(f) == p.len());
    assert(f.skip(4 + p.len() as int) =~= Seq::<u8>::empty());
    assert(split_frames(Seq::<u8>::empty()) == (Seq::<Seq<u8>>::empty(), Seq::<u8>::empty()));
    assert(f.subrange(4, 4 + p.len() as int) =~= p);
    assert(seq![p] + Seq::<Seq<u8>>::empty() =~= seq![p]);
}

/// A stream that is exactly one complete frame splits into its payload.
pub proof fn lemma_split_complete(c: Seq<u8>)
    requires
        c.len() >= 4,
        valid_len(declared_len(c)),
        c.len() == 4 + declared_len(c),
    ensures
        split_frames(c) == (seq![c.skip(4)], Seq::<u8>::empty()),
{
    let n = declared_len(c) as int;
    assert(c.skip(4 + n) =~= Seq::<u8>::empty());
    assert(split_frames(Seq::<u8>::empty()) == (Seq::<Seq<u8>>::empty(), Seq::<u8>::empty()));
    assert(c.subrange(4, 4 + n) =~= c.skip(4));
    assert(seq![c.skip(4)] + Seq::<Seq<u8>>::empty() =~= seq![c.skip(4)]);
}

/// A header that declares an invalid length stays in the stream whatever follows.
pub proof fn lemma_invalid_header_persists(s: Seq<u8>, t: Seq<u8>)
    requires
        has_invalid_header(s),
    ensures
        has_invalid_header(s + t),
        payloads_in(s + t) == payloads_in(s),
        leftover_of(s + t) == leftover_of(s) + t,
{
    lemma_split_append(s, t);
    let l = leftover_of(s);
    assert((l + t).take(4) =~= l.take(4));
    assert(split_frames(l + t) == (Seq::<Seq<u8>>::empty(), l + t));
    assert(payloads_in(s) + Seq::<Seq<u8>>::empty() =~= payloads_in(s));
}

/// Valid payloads put on the wire one after another are read back as the
/// same payloads, in the same order, with nothing left over.
pub proof fn lemma_frames_round_trip(ps: Seq<Seq<u8>>)
    requires
        forall|i: int| 0 <= i < ps.len() ==> valid_payload(#[trigger] ps[i]),
    ensures
        split_frames(frames_of(ps)) == (ps, Seq::<u8>::empty()),
    decreases ps.len(),
{
    if ps.len() == 0 {
        assert(frames_of(ps) =~= Seq::<u8>::empty());
    } else {
        let init = ps.drop_last();
        assert forall|i: int| 0 <= i < init.len() implies valid_payload(#[trigger] init[i]) by {
            assert(init[i] == ps[i]);
        }
        lemma_frames_round_trip(init);
        lemma_split_append(frames_of(init), frame_of(ps.last()));
        assert(Seq::<u8>::empty() + frame_of(ps.last()) =~= frame_of(ps.last()));
        lemma_split_one_frame(ps.last());
        assert(init + seq![ps.last()] =~= ps);
    }
}

/// Putting two sequences of payloads on the wire one after the other gives the
/// bytes of the first followed by those of the second.
pub proof fn lemma_frames_append(a: Seq<Seq<u8>>, b: Seq<Seq<u8>>)
    ensures
        frames_of(a + b) == frames_of(a) + frames_of(b),
    decreases b.len(),
{
    if b.len() == 0 {
        assert(a + b =~= a);
        assert(frames_of(a) + Seq::<u8>::empty() =~= frames_of(a));
    } else {
        lemma_frames_append(a, b.drop_last());
        assert((a + b).drop_last() =~= a + b.drop_last());
        assert((a + b).last() == b.last());
        assert(frames_of(a) + frames_of(b.drop_last()) + frame_of(b.last()) =~= frames_of(a) + (frames_of(
            b.drop_last(),
        ) + frame_of(b.last())));
    }
}

/// One payload on the wire is its frame.
pub proof fn lemma_frames_single(p: Seq<u8>)
    ensures
        frames_of(seq![p]) == frame_of(p),
{
    assert(seq![p].drop_last() =~= Seq::<Seq<u8>>::empty());
    assert(frames_of(Seq::<Seq<u8>>::empty()) == Seq::<u8>::empty());
    assert(Seq::<u8>::empty() + frame_of(p) =~= frame_of(p));
}

/// A valid payload sent as one frame and read back from the bytes on the wire
/// yields exactly that payload, once, with no byte left over.
pub proof fn law_round_trip(p: Seq<u8>)
    requires
        valid_payload(p),
    ensures
        payloads_in(frames_of(seq![p])) == seq![p],
        leftover_of(frames_of(seq![p])) == Seq::<u8>::empty(),
{
    lemma_frames_single(p);
    lemma_split_one_frame(p);
}

/// The bytes of a sequence of chunks, one after another.
pub open spec fn concat(chunks: Seq<Seq<u8>>) -> Seq<u8>
    decreases chunks.len(),
{
    if chunks.len() == 0 {
        Seq::empty()
    } else {
        concat(chunks.drop_last()) + chunks.last()
    }
}

/// What a reader that receives the chunks one at a time has found: the payloads
/// completed after each chunk, in order, and the bytes of the frame still open.
pub open spec fn feed_chunks(chunks: Seq<Seq<u8>>) -> (Seq<Seq<u8>>, Seq<u8>)
    decreases chunks.len(),
{
    if chunks.len() == 0 {
        (Seq::empty(), Seq::empty())
    } else {
        let prev = feed_chunks(chunks.drop_last());
        let now = split_frames(prev.1 + chunks.last());
        (prev.0 + now.0, now.1)
    }
}

/// However a byte stream is cut into chunks, reading the chunks one at a time
/// yields the same payloads, and the same open frame, as reading all the bytes
/// at once.
pub proof fn law_chunking_invariance(chunks: Seq<Seq<u8>>)
    ensures
        feed_chunks(chunks) == split_frames(concat(chunks)),
    decreases chunks.len(),
{
    if chunks.len() == 0 {
        assert(split_frames(Seq::<u8>::empty()) == (Seq::<Seq<u8>>::empty(), Seq::<u8>::empty()));
    } else {
        law_chunking_invariance(chunks.drop_last());
        lemma_split_append(concat(chunks.drop_last()), chunks.last());
    }
}

/// Cutting the frames of valid payloads into chunks in any way, and reading the
/// chunks one at a time, yields exactly those payloads in order.
pub proof fn law_chunked_frames(chunks: Seq<Seq<u8>>, ps: Seq<Seq<u8>>)
    requires
        forall|i: int| 0 <= i < ps.len() ==> valid_payload(#[trigger] ps[i]),
        concat(chunks) == frames_of(ps),
    ensures
        feed_chunks(chunks) == (ps, Seq::<u8>::empty()),
{
    law_chunking_invariance(chunks);
    lemma_frames_round_trip(ps);
}

} // verus!
