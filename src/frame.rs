//! Length-prefixed framing: each message is its length as a little-endian
//! `u32` followed by that many bytes.
use vstd::prelude::*;
use crate::bytes::{
    le_bytes, le_value, lemma_le_bytes_len, lemma_le_round_trip, lemma_le_value_bound,
    lemma_pow256_values, push_le, read_le,
};

verus! {

/// Bytes of the length prefix.
pub const HEADER_LEN: usize = 4;

/// Largest payload a reader accepts (1 MiB). The writer never needs more: an
/// encoded envelope is a few dozen bytes. A larger length in a header is
/// taken as a broken stream rather than a reason to allocate.
pub const MAX_FRAME_LEN: usize = 1048576;

/// Why a stream of frames stopped before a frame boundary.
#[derive(Clone, Copy, Debug, PartialEq, Eq, Structural)]
pub enum FrameError {
    /// The stream ended inside a header or a payload.
    Truncated,
    /// A header announced more than `MAX_FRAME_LEN` bytes.
    TooLarge(u32),
}

/// One frame: the payload's length, then the payload.
pub open spec fn frame_bytes(p: Seq<u8>) -> Seq<u8> {
    le_bytes(p.len(), 4) + p
}

/// The frames of several payloads, one after another.
pub open spec fn frames_bytes(ps: Seq<Seq<u8>>) -> Seq<u8>
    decreases ps.len(),
{
    if ps.len() == 0 {
        Seq::empty()
    } else {
        frame_bytes(ps[0]) + frames_bytes(ps.drop_first())
    }
}

/// Every payload is small enough to be framed and read back.
pub open spec fn payloads_fit(ps: Seq<Seq<u8>>) -> bool {
    forall|i: int| 0 <= i < ps.len() ==> (#[trigger] ps[i]).len() <= MAX_FRAME_LEN
}

/// What a reader gets from a stream: the payloads of the complete frames in
/// order, and why it stopped, if not at a frame boundary at the end.
pub open spec fn parse_stream(s: Seq<u8>) -> (Seq<Seq<u8>>, Option<FrameError>)
    decreases s.len(),
{
    if s.len() == 0 {
        (Seq::empty(), None)
    } else if s.len() < 4 {
        (Seq::empty(), Some(FrameError::Truncated))
    } else {
        let n = le_value(s.subrange(0, 4)) as int;
        if n > MAX_FRAME_LEN {
            (Seq::empty(), Some(FrameError::TooLarge(n as u32)))
        } else if s.len() < 4 + n {
            (Seq::empty(), Some(FrameError::Truncated))
        } else {
            let rest = parse_stream(s.subrange(4 + n, s.len() as int));
            (seq![s.subrange(4, 4 + n)] + rest.0, rest.1)
        }
    }
}

pub open spec fn payload_views(v: Seq<Vec<u8>>) -> Seq<Seq<u8>> {
    v.map_values(|p: Vec<u8>| p@)
}

/// Frames a payload: its length as a little-endian `u32`, then its bytes.
pub fn encode_frame(payload: &[u8]) -> (r: Vec<u8>)
    requires
        payload@.len() <= MAX_FRAME_LEN,
    ensures
        r@ == frame_bytes(payload@),
{
    let mut out: Vec<u8> = Vec::new();
    push_le(&mut out, payload.len() as u128, HEADER_LEN);
    let mut i: usize = 0;
    while i < payload.len()
        invariant
            i <= payload@.len(),
            out@ == le_bytes(payload@.len(), 4) + payload@.subrange(0, i as int),
        decreases payload@.len() - i,
    {
        out.push(payload[i]);
        i = i + 1;
        proof {
            assert(out@ =~= le_bytes(payload@.len(), 4) + payload@.subrange(0, i as int));
        }
    }
    proof {
        assert(payload@.subrange(0, payload@.len() as int) =~= payload@);
    }
    out
}

/// The payload length announced by a header, or `TooLarge` past
/// `MAX_FRAME_LEN`.
pub fn frame_length(header: &[u8]) -> (r: Result<usize, FrameError>)
    requires
        header@.len() == HEADER_LEN,
    ensures
        le_value(header@) <= MAX_FRAME_LEN ==> r == Ok::<usize, FrameError>(
            le_value(header@) as usize,
        ),
        le_value(header@) > MAX_FRAME_LEN ==> r == Err::<usize, FrameError>(
            FrameError::TooLarge(le_value(header@) as u32),
        ),
{
    let n = read_le(header, 0, HEADER_LEN);
    proof {
        assert(header@.subrange(0, 4) =~= header@);
        lemma_le_value_bound(header@);
        lemma_pow256_values();
    }
    if n > MAX_FRAME_LEN as u128 {
        Err(FrameError::TooLarge(n as u32))
    } else {
        Ok(n as usize)
    }
}

fn copy_range(buf: &[u8], start: usize, end: usize) -> (r: Vec<u8>)
    requires
        start <= end <= buf@.len(),
    ensures
        r@ == buf@.subrange(start as int, end as int),
{
    let mut out: Vec<u8> = Vec::new();
    let mut i: usize = start;
    while i < end
        invariant
            start <= i <= end,
            end <= buf@.len(),
            out@ == buf@.subrange(start as int, i as int),
        decreases end - i,
    {
        out.push(buf[i]);
        i = i + 1;
        proof {
            assert(out@ =~= buf@.subrange(start as int, i as int));
        }
    }
    out
}

/// Reads a whole byte stream as frames: the payloads of its complete frames,
/// in order, and why it stopped if the stream does not end at a frame
/// boundary. Nothing of an incomplete frame is handed out.
pub fn split_frames(stream: &[u8]) -> (r: (Vec<Vec<u8>>, Option<FrameError>))
    ensures
        payload_views(r.0@) == parse_stream(stream@).0,
        r.1 == parse_stream(stream@).1,
{
    let len = stream.len();
    let mut out: Vec<Vec<u8>> = Vec::new();
    let mut pos: usize = 0;
    proof {
        assert(stream@.subrange(0, len as int) =~= stream@);
        assert(payload_views(out@) =~= Seq::<Seq<u8>>::empty());
    }
    loop
        invariant
            pos <= len,
            len == stream@.len(),
            parse_stream(stream@).0 == payload_views(out@) + parse_stream(
                stream@.subrange(pos as int, len as int),
            ).0,
            parse_stream(stream@).1 == parse_stream(stream@.subrange(pos as int, len as int)).1,
        decreases len - pos,
    {
        let ghost s = stream@.subrange(pos as int, len as int);
        // Every early return below hands back `out` with nothing after it.
        proof {
            assert(payload_views(out@) + Seq::<Seq<u8>>::empty() =~= payload_views(out@));
        }
        if pos == len {
            return (out, None);
        }
        if len - pos < HEADER_LEN {
            return (out, Some(FrameError::Truncated));
        }
        let n = read_le(stream, pos, HEADER_LEN);
        proof {
            assert(s.subrange(0, 4) =~= stream@.subrange(pos as int, pos + 4));
            lemma_le_value_bound(s.subrange(0, 4));
            lemma_pow256_values();
        }
        if n > MAX_FRAME_LEN as u128 {
            return (out, Some(FrameError::TooLarge(n as u32)));
        }
        let n = n as usize;
        if len - pos - HEADER_LEN < n {
            return (out, Some(FrameError::Truncated));
        }
        let payload = copy_range(stream, pos + HEADER_LEN, pos + HEADER_LEN + n);
        let ghost before = out@;
        out.push(payload);
        proof {
            assert(s.subrange(4, 4 + n) =~= payload@);
            assert(s.subrange(4 + n, s.len() as int) =~= stream@.subrange(
                pos + 4 + n,
                len as int,
            ));
            assert(payload_views(out@) =~= payload_views(before) + seq![payload@]);
            let rest = parse_stream(stream@.subrange(pos + 4 + n, len as int)).0;
            assert(payload_views(before) + (seq![payload@] + rest) =~= payload_views(out@)
                + rest);
        }
        pos = pos + HEADER_LEN + n;
    }
}

/// The stream stopped at a header announcing too large a frame.
pub open spec fn stopped_too_large(end: Option<FrameError>) -> bool {
    end matches Some(FrameError::TooLarge(_))
}

/// A reader fed by a byte stream in chunks of any size: it holds the bytes
/// not yet handed out and yields each frame's payload once the frame is
/// complete.
pub struct FrameReader {
    pending: Vec<u8>,
}

impl FrameReader {
    /// The bytes received and not yet handed out.
    pub closed spec fn pending(&self) -> Seq<u8> {
        self.pending@
    }

    pub fn new() -> (r: FrameReader)
        ensures
            r.pending() == Seq::<u8>::empty(),
    {
        FrameReader { pending: Vec::new() }
    }

    /// Adds bytes that arrived from the stream.
    pub fn push(&mut self, chunk: &[u8])
        ensures
            final(self).pending() == old(self).pending() + chunk@,
    {
        let ghost start = self.pending@;
        let mut i: usize = 0;
        while i < chunk.len()
            invariant
                i <= chunk@.len(),
                self.pending@ == start + chunk@.subrange(0, i as int),
            decreases chunk@.len() - i,
        {
            self.pending.push(chunk[i]);
            i = i + 1;
            proof {
                assert(self.pending@ =~= start + chunk@.subrange(0, i as int));
            }
        }
        proof {
            assert(chunk@.subrange(0, chunk@.len() as int) =~= chunk@);
        }
    }

    /// Whether every byte received has been handed out; at the end of the
    /// stream, `false` means it stopped inside a frame.
    pub fn is_empty(&self) -> (r: bool)
        ensures
            r == (self.pending().len() == 0),
    {
        self.pending.len() == 0
    }

    /// The payload of the first complete frame, removed from the pending
    /// bytes; `Ok(None)` while the first frame is incomplete; `TooLarge`
    /// for a header past `MAX_FRAME_LEN`. What comes out over successive
    /// calls is what `parse_stream` reads from the pending bytes.
    pub fn next_frame(&mut self) -> (r: Result<Option<Vec<u8>>, FrameError>)
        ensures
            parse_stream(old(self).pending()).0.len() > 0 ==> {
                &&& r matches Ok(Some(p))
                &&& p@ == parse_stream(old(self).pending()).0[0]
                &&& parse_stream(final(self).pending()) == (
                    parse_stream(old(self).pending()).0.drop_first(),
                    parse_stream(old(self).pending()).1,
                )
                &&& final(self).pending() == old(self).pending().subrange(
                    HEADER_LEN + p@.len(),
                    old(self).pending().len() as int,
                )
            },
            parse_stream(old(self).pending()).0.len() == 0 && stopped_too_large(
                parse_stream(old(self).pending()).1,
            ) ==> {
                &&& r matches Err(e)
                &&& Some(e) == parse_stream(old(self).pending()).1
                &&& final(self).pending() == old(self).pending()
            },
            parse_stream(old(self).pending()).0.len() == 0 && !stopped_too_large(
                parse_stream(old(self).pending()).1,
            ) ==> (r matches Ok(None) && final(self).pending() == old(self).pending()),
    {
        let len = self.pending.len();
        if len < HEADER_LEN {
            return Ok(None);
        }
        let n = read_le(self.pending.as_slice(), 0, HEADER_LEN);
        proof {
            lemma_le_value_bound(self.pending@.subrange(0, 4));
            lemma_pow256_values();
        }
        if n > MAX_FRAME_LEN as u128 {
            return Err(FrameError::TooLarge(n as u32));
        }
        let n = n as usize;
        if len - HEADER_LEN < n {
            return Ok(None);
        }
        let payload = copy_range(self.pending.as_slice(), HEADER_LEN, HEADER_LEN + n);
        let rest = copy_range(self.pending.as_slice(), HEADER_LEN + n, len);
        self.pending = rest;
        Ok(Some(payload))
    }
}

/// Reading frames that stand in front of any other bytes yields their
/// payloads, then whatever those other bytes yield.
pub proof fn lemma_parse_frames_then(ps: Seq<Seq<u8>>, t: Seq<u8>)
    requires
        payloads_fit(ps),
    ensures
        parse_stream(frames_bytes(ps) + t) == (ps + parse_stream(t).0, parse_stream(t).1),
    decreases ps.len(),
{
    if ps.len() == 0 {
        assert(frames_bytes(ps) + t =~= t);
        assert(ps + parse_stream(t).0 =~= parse_stream(t).0);
    } else {
        let p = ps[0];
        let tail = ps.drop_first();
        assert(payloads_fit(tail)) by {
            assert forall|i: int| 0 <= i < tail.len() implies (#[trigger] tail[i]).len()
                <= MAX_FRAME_LEN by {
                assert(tail[i] == ps[i + 1]);
            }
        }
        lemma_parse_frames_then(tail, t);
        let s = frames_bytes(ps) + t;
        lemma_pow256_values();
        lemma_le_bytes_len(p.len(), 4);
        lemma_le_round_trip(p.len(), 4);
        assert(s =~= le_bytes(p.len(), 4) + p + (frames_bytes(tail) + t));
        assert(s.subrange(0, 4) =~= le_bytes(p.len(), 4));
        assert(s.subrange(4, 4 + p.len() as int) =~= p);
        assert(s.subrange(4 + p.len() as int, s.len() as int) =~= frames_bytes(tail) + t);
        assert(seq![p] + (tail + parse_stream(t).0) =~= ps + parse_stream(t).0);
    }
}

/// More bytes arriving never change what was read already: the frames of
/// `s` stay the first frames of `s + t`; a stream stopped by an oversized
/// header stays stopped; and a stream that ended at a frame boundary goes on
/// with whatever `t` holds.
pub proof fn lemma_parse_stream_extend(s: Seq<u8>, t: Seq<u8>)
    ensures
        parse_stream(s).0.len() <= parse_stream(s + t).0.len(),
        parse_stream(s + t).0.subrange(0, parse_stream(s).0.len() as int) == parse_stream(s).0,
        stopped_too_large(parse_stream(s).1) ==> parse_stream(s + t) == parse_stream(s),
        parse_stream(s).1 is None ==> parse_stream(s + t) == (
            parse_stream(s).0 + parse_stream(t).0,
            parse_stream(t).1,
        ),
    decreases s.len(),
{
    let st = s + t;
    if s.len() == 0 {
        assert(st =~= t);
        assert(parse_stream(s).0 + parse_stream(t).0 =~= parse_stream(t).0);
    } else if s.len() >= 4 {
        assert(st.subrange(0, 4) =~= s.subrange(0, 4));
        let n = le_value(s.subrange(0, 4)) as int;
        if n <= MAX_FRAME_LEN && s.len() >= 4 + n {
            let rest = s.subrange(4 + n, s.len() as int);
            assert(st.subrange(4, 4 + n) =~= s.subrange(4, 4 + n));
            assert(st.subrange(4 + n, st.len() as int) =~= rest + t);
            lemma_parse_stream_extend(rest, t);
            let p = s.subrange(4, 4 + n);
            assert(parse_stream(st).0 =~= seq![p] + parse_stream(rest + t).0);
            assert(parse_stream(st).0.subrange(0, parse_stream(s).0.len() as int) =~= seq![p]
                + parse_stream(rest + t).0.subrange(0, parse_stream(rest).0.len() as int));
            assert(seq![p] + (parse_stream(rest).0 + parse_stream(t).0) =~= parse_stream(s).0
                + parse_stream(t).0);
        }
    }
}

/// Framing round trip: the frames of any payloads read back as exactly
/// those payloads, in order, ending cleanly.
pub proof fn lemma_frames_round_trip(ps: Seq<Seq<u8>>)
    requires
        payloads_fit(ps),
    ensures
        parse_stream(frames_bytes(ps)) == (ps, Option::<FrameError>::None),
{
    lemma_parse_frames_then(ps, Seq::empty());
    assert(frames_bytes(ps) + Seq::<u8>::empty() =~= frames_bytes(ps));
    assert(ps + Seq::<Seq<u8>>::empty() =~= ps);
}

/// A stream that stops inside a frame yields the complete frames before it
/// and then `Truncated`, never a piece of the cut frame.
pub proof fn lemma_truncated_stream(ps: Seq<Seq<u8>>, p: Seq<u8>, k: int)
    requires
        payloads_fit(ps),
        p.len() <= MAX_FRAME_LEN,
        0 < k < frame_bytes(p).len(),
    ensures
        parse_stream(frames_bytes(ps) + frame_bytes(p).subrange(0, k)) == (
            ps,
            Some(FrameError::Truncated),
        ),
{
    let t = frame_bytes(p).subrange(0, k);
    lemma_parse_frames_then(ps, t);
    lemma_pow256_values();
    lemma_le_bytes_len(p.len(), 4);
    lemma_le_round_trip(p.len(), 4);
    if k >= 4 {
        assert(t.subrange(0, 4) =~= le_bytes(p.len(), 4));
    }
    assert(parse_stream(t).0 =~= Seq::<Seq<u8>>::empty());
    assert(ps + Seq::<Seq<u8>>::empty() =~= ps);
}

} // verus!
