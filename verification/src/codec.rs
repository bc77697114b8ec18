//! Streaming frame codec.
//!
//! A frame is a one-byte type tag (absent on the startup frame), a 32-bit
//! big-endian length that counts itself plus the payload, and `length - 4`
//! payload bytes. The decoder reassembles frames from arbitrary chunk
//! boundaries; the encoder recomputes the length prefix on every emission,
//! so the declared length of an emitted frame always matches its payload.

use vstd::prelude::*;

verus! {

use crate::wire::{be32, be32_val, lemma_be32_of_val, lemma_be32_val, push_be32, read_be32};
use vstd::slice::{slice_subrange, slice_to_vec};

/// Errors of the protocol core. I/O errors belong to the caller that owns
/// the sockets.
#[derive(Clone, Copy, Debug, PartialEq, Eq, Structural)]
pub enum ProxyError {
    /// A length field below 4 or above the frame ceiling.
    MalformedFrame,
    /// The stream ended in the middle of a frame.
    UnexpectedEof,
    /// A DataRow without a RowDescription, or a cell-count mismatch.
    ProtocolViolation,
}

/// The largest frame length the decoder accepts by default.
pub const DEFAULT_MAX_FRAME: u32 = 0x4000_0000;

/// Mathematical model of one frame: its tag, if any, and its payload.
pub struct FrameModel {
    pub tag: Option<u8>,
    pub payload: Seq<u8>,
}

/// One decoded frame: the tag (absent on the untagged startup frame) and
/// the payload bytes, without the length prefix.
#[derive(Debug, PartialEq, Eq)]
pub struct Frame {
    pub tag: Option<u8>,
    pub payload: Vec<u8>,
}

impl View for Frame {
    type V = FrameModel;

    open spec fn view(&self) -> FrameModel {
        FrameModel { tag: self.tag, payload: self.payload@ }
    }
}

/// A frame whose length field fits under the ceiling `max`.
pub open spec fn frame_wf(f: FrameModel, max: int) -> bool {
    f.payload.len() + 4 <= max
}

pub open spec fn tag_bytes(tag: Option<u8>) -> Seq<u8> {
    match tag {
        Some(t) => seq![t],
        None => Seq::empty(),
    }
}

/// The wire form of a frame: tag, then the length counting itself and the
/// payload, then the payload.
pub open spec fn frame_bytes(f: FrameModel) -> Seq<u8> {
    tag_bytes(f.tag) + be32((f.payload.len() + 4) as u32) + f.payload
}

/// What one attempt to take a frame off the front of a buffer yields.
pub enum ParseOutcome {
    /// Not enough bytes buffered yet.
    NeedMore,
    /// The length field is below 4 or above the ceiling.
    Bad,
    /// A complete frame, and the bytes that follow it.
    Done { tag: Option<u8>, payload: Seq<u8>, rest: Seq<u8> },
}

/// Takes one frame off the front of `b`. `untagged` selects the startup
/// layout without a tag byte; `max` is the frame ceiling.
pub open spec fn parse_one(b: Seq<u8>, untagged: bool, max: int) -> ParseOutcome {
    let h: int = if untagged { 4 } else { 5 };
    if b.len() < h {
        ParseOutcome::NeedMore
    } else {
        let len = be32_val(b.subrange(h - 4, h));
        if len < 4 || len > max {
            ParseOutcome::Bad
        } else if b.len() < h - 4 + len {
            ParseOutcome::NeedMore
        } else {
            ParseOutcome::Done {
                tag: if untagged { None } else { Some(b[0]) },
                payload: b.subrange(h, h - 4 + len),
                rest: b.subrange(h - 4 + len, b.len() as int),
            }
        }
    }
}

/// Everything a buffer holds: the complete frames off its front, the bytes
/// left over, and whether a bad length field was hit.
pub struct ParsedStream {
    pub frames: Seq<FrameModel>,
    pub rest: Seq<u8>,
    pub malformed: bool,
}

/// Takes frames off the front of `b` until the bytes run out or a length
/// field is bad. Only the first frame may be untagged.
pub open spec fn parse_all(b: Seq<u8>, untagged_first: bool, max: int) -> ParsedStream
    decreases b.len(),
{
    match parse_one(b, untagged_first, max) {
        ParseOutcome::NeedMore => ParsedStream { frames: Seq::empty(), rest: b, malformed: false },
        ParseOutcome::Bad => ParsedStream { frames: Seq::empty(), rest: b, malformed: true },
        ParseOutcome::Done { tag, payload, rest } => {
            let tail = parse_all(rest, false, max);
            ParsedStream {
                frames: seq![FrameModel { tag, payload }] + tail.frames,
                rest: tail.rest,
                malformed: tail.malformed,
            }
        },
    }
}

/// A complete frame at the front of a buffer stays the same when more bytes
/// arrive behind it, and a bad length field stays bad: decoding does not
/// depend on how the stream was chunked.
pub proof fn lemma_parse_one_extend(b: Seq<u8>, ext: Seq<u8>, untagged: bool, max: int)
    ensures
        parse_one(b, untagged, max) matches ParseOutcome::Done { tag, payload, rest } ==> parse_one(
            b + ext,
            untagged,
            max,
        ) == (ParseOutcome::Done { tag, payload, rest: rest + ext }),
        parse_one(b, untagged, max) matches ParseOutcome::Bad ==> parse_one(b + ext, untagged, max)
            matches ParseOutcome::Bad,
{
    let h: int = if untagged { 4 } else { 5 };
    if b.len() >= h {
        assert((b + ext).subrange(h - 4, h) =~= b.subrange(h - 4, h));
        let len = be32_val(b.subrange(h - 4, h));
        if 4 <= len && len <= max && b.len() >= h - 4 + len {
            assert((b + ext).subrange(h, h - 4 + len) =~= b.subrange(h, h - 4 + len));
            assert((b + ext).subrange(h - 4 + len, (b + ext).len() as int) =~= b.subrange(
                h - 4 + len,
                b.len() as int,
            ) + ext);
        }
    }
}

/// The wire form of a well-formed frame, followed by anything, decodes to
/// exactly that frame with the trailing bytes left over.
pub proof fn lemma_parse_frame_bytes(f: FrameModel, rest: Seq<u8>, max: int)
    requires
        frame_wf(f, max),
        max <= 0x4000_0000,
    ensures
        parse_one(frame_bytes(f) + rest, f.tag is None, max) == (ParseOutcome::Done {
            tag: f.tag,
            payload: f.payload,
            rest,
        }),
{
    let untagged = f.tag is None;
    let h: int = if untagged { 4 } else { 5 };
    let b = frame_bytes(f) + rest;
    let n = (f.payload.len() + 4) as u32;
    lemma_be32_val(n);
    assert(b.subrange(h - 4, h) =~= be32(n));
    let len = be32_val(b.subrange(h - 4, h));
    assert(len == f.payload.len() + 4);
    assert(b.len() == h + f.payload.len() + rest.len());
    assert(b.subrange(h, h - 4 + len) =~= f.payload);
    assert(b.subrange(h - 4 + len, b.len() as int) =~= rest);
    if !untagged {
        assert(b[0] == f.tag->0);
    }
}

/// Decoding then re-encoding is the identity on the bytes: the frames a
/// buffer yields, re-emitted, followed by the leftover bytes, are the buffer.
pub proof fn lemma_parse_one_exact(b: Seq<u8>, untagged: bool, max: int)
    ensures
        parse_one(b, untagged, max) matches ParseOutcome::Done { tag, payload, rest } ==> b
            =~= frame_bytes(FrameModel { tag, payload }) + rest && frame_wf(
            FrameModel { tag, payload },
            max,
        ),
{
    let h: int = if untagged { 4 } else { 5 };
    if b.len() >= h {
        let len = be32_val(b.subrange(h - 4, h));
        if 4 <= len && len <= max && b.len() >= h - 4 + len {
            lemma_be32_of_val(b.subrange(h - 4, h));
            let payload = b.subrange(h, h - 4 + len);
            let tag: Option<u8> = if untagged { None } else { Some(b[0]) };
            assert(be32((payload.len() + 4) as u32) =~= b.subrange(h - 4, h));
            assert(b =~= frame_bytes(FrameModel { tag, payload }) + b.subrange(
                h - 4 + len,
                b.len() as int,
            ));
        }
    }
}

/// The concatenated wire form of a sequence of frames.
pub open spec fn frames_bytes(fs: Seq<FrameModel>) -> Seq<u8>
    decreases fs.len(),
{
    if fs.len() == 0 {
        Seq::empty()
    } else {
        frame_bytes(fs[0]) + frames_bytes(fs.drop_first())
    }
}

/// Every frame fits under the ceiling.
pub open spec fn frames_wf(fs: Seq<FrameModel>, max: int) -> bool {
    forall|i: int| 0 <= i < fs.len() ==> frame_wf(#[trigger] fs[i], max)
}

/// Only the first frame may lack a tag, and only in the untagged-first mode.
pub open spec fn frames_tags_ok(fs: Seq<FrameModel>, untagged_first: bool) -> bool {
    forall|i: int|
        0 <= i < fs.len() ==> ((#[trigger] fs[i]).tag is None <==> (i == 0 && untagged_first))
}

/// Framing round-trip: the concatenated wire form of any sequence of
/// well-formed frames decodes to exactly those frames, with nothing left
/// over and nothing malformed; re-encoding them reproduces the input bytes
/// by definition of `frames_bytes`. Together with `lemma_parse_one_extend`,
/// which makes decoding insensitive to chunk boundaries, this is the framing
/// round-trip law.
pub proof fn lemma_framing_round_trip(fs: Seq<FrameModel>, untagged_first: bool, max: int)
    requires
        frames_wf(fs, max),
        frames_tags_ok(fs, untagged_first),
        4 <= max <= 0x4000_0000,
    ensures
        parse_all(frames_bytes(fs), untagged_first, max).frames =~= fs,
        parse_all(frames_bytes(fs), untagged_first, max).rest =~= Seq::<u8>::empty(),
        !parse_all(frames_bytes(fs), untagged_first, max).malformed,
    decreases fs.len(),
{
    if fs.len() == 0 {
        assert(frames_bytes(fs).len() == 0);
    } else {
        let f = fs[0];
        let tail = fs.drop_first();
        assert(f.tag is None <==> untagged_first);
        lemma_parse_frame_bytes(f, frames_bytes(tail), max);
        assert(frames_wf(tail, max)) by {
            assert(forall|i: int|
                0 <= i < tail.len() ==> #[trigger] tail[i] == fs[i + 1] && frame_wf(
                    fs[i + 1],
                    max,
                ));
        }
        assert(frames_tags_ok(tail, false)) by {
            assert(forall|i: int| 0 <= i < tail.len() ==> #[trigger] tail[i] == fs[i + 1]);
        }
        lemma_framing_round_trip(tail, false, max);
        assert(parse_all(frames_bytes(fs), untagged_first, max).frames =~= seq![
            FrameModel { tag: f.tag, payload: f.payload },
        ] + tail);
        assert(seq![FrameModel { tag: f.tag, payload: f.payload }] + tail =~= fs);
    }
}

/// Streaming decomposition: a buffer may be drained of its complete frames
/// before more bytes arrive; the frames of the whole are the frames already
/// taken plus the frames of the leftover with the new bytes appended.
pub proof fn lemma_parse_all_extend(b: Seq<u8>, ext: Seq<u8>, untagged_first: bool, max: int)
    requires
        !parse_all(b, untagged_first, max).malformed,
    ensures
        ({
            let p = parse_all(b, untagged_first, max);
            let u2 = if p.frames.len() == 0 {
                untagged_first
            } else {
                false
            };
            let q = parse_all(p.rest + ext, u2, max);
            parse_all(b + ext, untagged_first, max).frames =~= p.frames + q.frames
                && parse_all(b + ext, untagged_first, max).rest =~= q.rest
                && parse_all(b + ext, untagged_first, max).malformed == q.malformed
        }),
    decreases b.len(),
{
    lemma_parse_one_extend(b, ext, untagged_first, max);
    match parse_one(b, untagged_first, max) {
        ParseOutcome::NeedMore => {
            assert(parse_all(b, untagged_first, max).rest =~= b);
        },
        ParseOutcome::Bad => {},
        ParseOutcome::Done { tag, payload, rest } => {
            lemma_parse_all_extend(rest, ext, false, max);
            let p = parse_all(b, untagged_first, max);
            let pr = parse_all(rest, false, max);
            if pr.frames.len() == 0 {
                // rest parsed no frame, so its leftover is rest itself
                assert(pr.rest =~= rest);
            }
        },
    }
}

/// The streaming decoder for one direction of one connection. Bytes go in
/// through `feed`; complete frames come out through `next_frame`.
pub struct Decoder {
    buf: Vec<u8>,
    untagged_first: bool,
    awaiting_first: bool,
    max_frame: u32,
}

impl Decoder {
    /// The bytes fed in and not yet consumed as frames.
    pub closed spec fn buffered(self) -> Seq<u8> {
        self.buf@
    }

    /// Whether the next frame is decoded without a tag byte.
    pub closed spec fn next_untagged(self) -> bool {
        self.untagged_first && self.awaiting_first
    }

    /// The frame ceiling.
    pub closed spec fn max(self) -> int {
        self.max_frame as int
    }

    pub closed spec fn wf(self) -> bool {
        4 <= self.max_frame <= 0x4000_0000
    }

    /// A decoder with the default frame ceiling. `untagged_first` selects
    /// the startup layout for the first frame, as on the client-to-server
    /// stream of a fresh connection.
    pub fn new(untagged_first: bool) -> (d: Decoder)
        ensures
            d.wf(),
            d.buffered() == Seq::<u8>::empty(),
            d.next_untagged() == untagged_first,
            d.max() == DEFAULT_MAX_FRAME as int,
    {
        Decoder {
            buf: Vec::new(),
            untagged_first,
            awaiting_first: true,
            max_frame: DEFAULT_MAX_FRAME,
        }
    }

    /// A decoder with a chosen frame ceiling.
    pub fn with_max_frame(untagged_first: bool, max_frame: u32) -> (d: Decoder)
        requires
            4 <= max_frame <= 0x4000_0000,
        ensures
            d.wf(),
            d.buffered() == Seq::<u8>::empty(),
            d.next_untagged() == untagged_first,
            d.max() == max_frame as int,
    {
        Decoder { buf: Vec::new(), untagged_first, awaiting_first: true, max_frame }
    }

    /// Appends one chunk of the stream, with whatever boundaries the
    /// transport chose.
    pub fn feed(&mut self, bytes: &[u8])
        requires
            old(self).wf(),
        ensures
            final(self).wf(),
            final(self).buffered() == old(self).buffered() + bytes@,
            final(self).next_untagged() == old(self).next_untagged(),
            final(self).max() == old(self).max(),
    {
        self.buf.extend_from_slice(bytes);
    }

    /// True when no partial frame is buffered, so the stream may end here
    /// without an `UnexpectedEof`.
    pub fn buffer_is_empty(&self) -> (b: bool)
        ensures
            b == (self.buffered().len() == 0),
    {
        self.buf.len() == 0
    }

    /// Takes the next complete frame off the buffer: `Ok(None)` when more
    /// bytes are needed, `Err(MalformedFrame)` on a bad length field.
    pub fn next_frame(&mut self) -> (r: Result<Option<Frame>, ProxyError>)
        requires
            old(self).wf(),
        ensures
            final(self).wf(),
            final(self).max() == old(self).max(),
            match parse_one(old(self).buffered(), old(self).next_untagged(), old(self).max()) {
                ParseOutcome::NeedMore => r matches Ok(None)
                    && final(self).buffered() == old(self).buffered()
                    && final(self).next_untagged() == old(self).next_untagged(),
                ParseOutcome::Bad => r matches Err(e) && e == ProxyError::MalformedFrame,
                ParseOutcome::Done { tag, payload, rest } => r matches Ok(Some(f)) && f@.tag == tag
                    && f@.payload == payload && final(self).buffered() == rest
                    && !final(self).next_untagged(),
            },
    {
        let untagged = self.untagged_first && self.awaiting_first;
        let h: usize = if untagged {
            4
        } else {
            5
        };
        if self.buf.len() < h {
            return Ok(None);
        }
        let len = read_be32(self.buf[h - 4], self.buf[h - 3], self.buf[h - 2], self.buf[h - 1]);
        proof {
            assert(seq![
                self.buf@[h - 4 as int],
                self.buf@[h - 3 as int],
                self.buf@[h - 2 as int],
                self.buf@[h - 1 as int],
            ] =~= self.buf@.subrange(h as int - 4, h as int));
        }
        if len < 4 || len > self.max_frame {
            return Err(ProxyError::MalformedFrame);
        }
        let total: usize = (h - 4) + (len as usize);
        if self.buf.len() < total {
            return Ok(None);
        }
        let tag: Option<u8> = if untagged {
            None
        } else {
            Some(self.buf[0])
        };
        let payload: Vec<u8> = slice_to_vec(slice_subrange(self.buf.as_slice(), h, total));
        let tail = self.buf.split_off(total);
        self.buf = tail;
        self.awaiting_first = false;
        Ok(Some(Frame { tag, payload }))
    }
}

/// A well-formed decoder's frame ceiling sits between 4 and 2^30.
pub proof fn lemma_decoder_wf_bounds(d: &Decoder)
    requires
        d.wf(),
    ensures
        4 <= d.max() <= 0x4000_0000,
{
}

/// Appends the wire form of a frame to `out`, recomputing the length prefix
/// from the payload it actually carries.
pub fn encode_frame(out: &mut Vec<u8>, f: &Frame)
    requires
        f@.payload.len() + 4 <= 0xFFFF_FFFF,
    ensures
        final(out)@ == old(out)@ + frame_bytes(f@),
{
    match f.tag {
        Some(t) => out.push(t),
        None => {},
    }
    push_be32(out, (f.payload.len() + 4) as u32);
    out.extend_from_slice(f.payload.as_slice());
    proof {
        assert(final(out)@ =~= old(out)@ + frame_bytes(f@));
    }
}

/// Appends the wire form of a tagged frame given as a tag and payload bytes.
pub fn encode_tagged(out: &mut Vec<u8>, tag: u8, payload: &[u8])
    requires
        payload@.len() + 4 <= 0xFFFF_FFFF,
    ensures
        final(out)@ == old(out)@ + frame_bytes(FrameModel { tag: Some(tag), payload: payload@ }),
{
    out.push(tag);
    push_be32(out, (payload.len() + 4) as u32);
    out.extend_from_slice(payload);
    proof {
        assert(final(out)@ =~= old(out)@ + frame_bytes(
            FrameModel { tag: Some(tag), payload: payload@ },
        ));
    }
}

} // verus!
