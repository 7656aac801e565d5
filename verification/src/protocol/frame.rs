//! Binary frame encoding and decoding.
//!
//! Wire format (all integers big-endian):
//! `[TotalLength: 4B][MagicByte: 1B][ApiKey: 2B][CorrelationId: 4B][TopicLength: 2B]
//! [TopicName: VarB][Partition: 4B][PayloadLength: 4B][Payload: VarB]`.
//! `TotalLength` covers everything after itself.
use vstd::prelude::*;
use vstd::utf8::*;
use crate::error::RukaError;
use crate::protocol::types::{ApiKey, MAGIC_BYTE, MAX_FRAME_SIZE, MIN_HEADER_SIZE};
use crate::text::{str_bytes, string_bytes, string_from_utf8, lemma_str_bytes_round_trip};
use crate::wire::{
    be16_at, be32_at, copy_range, get_u16, get_u32, lemma_be16_at, lemma_be32_at, lemma_sub_left,
    lemma_sub_right, lemma_u16_be, lemma_u32_be, put_slice, put_u16,
    put_u32, u16_be, u32_be,
};

verus! {

/// A fully parsed wire protocol frame.
#[derive(Debug, Clone, PartialEq, Eq)]
pub struct Frame {
    /// Must be `MAGIC_BYTE` (0xCA).
    pub magic: u8,
    /// The API operation.
    pub api_key: ApiKey,
    /// Client-assigned correlation ID echoed in responses.
    pub correlation_id: u32,
    /// Target topic name.
    pub topic: String,
    /// Target partition index (zero-based).
    pub partition: u32,
    /// Variable-length payload.
    pub payload: Vec<u8>,
}

/// The mathematical content of a frame.
pub struct FrameView {
    pub magic: u8,
    pub api_key: ApiKey,
    pub correlation_id: u32,
    pub topic: Seq<char>,
    pub partition: u32,
    pub payload: Seq<u8>,
}

impl View for Frame {
    type V = FrameView;

    open spec fn view(&self) -> FrameView {
        FrameView {
            magic: self.magic,
            api_key: self.api_key,
            correlation_id: self.correlation_id,
            topic: self.topic@,
            partition: self.partition,
            payload: self.payload@,
        }
    }
}

/// What decoding makes of the front of a buffer.
pub enum FrameOutcome {
    /// Not enough bytes yet.
    Incomplete,
    /// The bytes cannot be a frame.
    Failed(RukaError),
    /// A whole frame.
    Decoded(FrameView),
}

/// Length of the encoded body (everything after `TotalLength`).
pub open spec fn body_len(f: FrameView) -> nat {
    17 + str_bytes(f.topic).len() + f.payload.len()
}

/// The encoded body; lengths are written truncated to their field widths.
pub open spec fn body_bytes(f: FrameView) -> Seq<u8> {
    seq![f.magic] + u16_be(f.api_key.code()) + u32_be(f.correlation_id) + u16_be(
        str_bytes(f.topic).len() as u16,
    ) + str_bytes(f.topic) + u32_be(f.partition) + u32_be(f.payload.len() as u32) + f.payload
}

/// The full encoding of a frame, with its `TotalLength` prefix.
pub open spec fn frame_bytes(f: FrameView) -> Seq<u8> {
    u32_be(body_len(f) as u32) + body_bytes(f)
}

/// Frames that the decoder accepts back: right magic byte, a topic of at
/// most 255 bytes that is empty only for error frames, and a body within
/// `MAX_FRAME_SIZE`.
pub open spec fn well_formed(f: FrameView) -> bool {
    &&& f.magic == MAGIC_BYTE
    &&& str_bytes(f.topic).len() <= 255
    &&& (str_bytes(f.topic).len() == 0 ==> f.api_key == ApiKey::Error)
    &&& body_len(f) <= MAX_FRAME_SIZE
}

/// How decoding reads a body of at least `MIN_HEADER_SIZE` bytes.
pub open spec fn body_outcome(b: Seq<u8>) -> FrameOutcome {
    let magic = b[0];
    let code = be16_at(b, 1);
    if magic != MAGIC_BYTE {
        FrameOutcome::Failed(RukaError::InvalidMagicByte(magic))
    } else {
        match ApiKey::from_code(code) {
            None => FrameOutcome::Failed(RukaError::UnknownApiKey(code)),
            Some(k) => {
                let tl = be16_at(b, 7) as int;
                if (tl == 0 && k != ApiKey::Error) || tl > 255 {
                    FrameOutcome::Failed(RukaError::InvalidTopicName)
                } else if b.len() - 9 < tl + 8 {
                    FrameOutcome::Failed(
                        RukaError::FrameTooShort {
                            needed: (tl + 8) as usize,
                            have: (b.len() - 9) as usize,
                        },
                    )
                } else if !valid_utf8(b.subrange(9, 9 + tl)) {
                    FrameOutcome::Failed(RukaError::InvalidTopicName)
                } else {
                    let pl = be32_at(b, 13 + tl) as int;
                    let rem = b.len() - 17 - tl;
                    if rem < pl {
                        FrameOutcome::Failed(
                            RukaError::FrameTooShort { needed: pl as usize, have: rem as usize },
                        )
                    } else {
                        FrameOutcome::Decoded(
                            FrameView {
                                magic,
                                api_key: k,
                                correlation_id: be32_at(b, 3),
                                topic: decode_utf8(b.subrange(9, 9 + tl)),
                                partition: be32_at(b, 9 + tl),
                                payload: b.subrange(17 + tl, 17 + tl + pl),
                            },
                        )
                    }
                }
            },
        }
    }
}

/// The `TotalLength` field at the front of `s`.
pub open spec fn total_len(s: Seq<u8>) -> int {
    be32_at(s, 0) as int
}

/// Whether `s` starts with a whole frame body of acceptable length, so that
/// decoding takes it off the buffer.
pub open spec fn takes_frame(s: Seq<u8>) -> bool {
    &&& s.len() >= 4
    &&& MIN_HEADER_SIZE <= total_len(s) <= MAX_FRAME_SIZE
    &&& s.len() >= 4 + total_len(s)
}

/// What `Frame::decode` makes of the front of `s`.
pub open spec fn frame_outcome(s: Seq<u8>) -> FrameOutcome {
    if s.len() < 4 {
        FrameOutcome::Incomplete
    } else if total_len(s) > MAX_FRAME_SIZE {
        FrameOutcome::Failed(
            RukaError::FrameTooLarge { max: MAX_FRAME_SIZE, got: total_len(s) as usize },
        )
    } else if total_len(s) < MIN_HEADER_SIZE {
        FrameOutcome::Failed(
            RukaError::FrameTooShort { needed: MIN_HEADER_SIZE, have: total_len(s) as usize },
        )
    } else if s.len() < 4 + total_len(s) {
        FrameOutcome::Incomplete
    } else {
        body_outcome(s.subrange(4, 4 + total_len(s)))
    }
}

/// The buffer that decoding leaves behind.
pub open spec fn frame_rest(s: Seq<u8>) -> Seq<u8> {
    if takes_frame(s) {
        s.skip(4 + total_len(s))
    } else {
        s
    }
}

impl Frame {
    /// Length of the serialized frame, not counting the `TotalLength` prefix.
    fn body_len(&self) -> (r: usize)
        requires
            body_len(self@) <= usize::MAX,
        ensures
            r == body_len(self@),
    {
        1 + 2 + 4 + 2 + self.topic.as_str().len() + 4 + 4 + self.payload.len()
    }

    /// Serialize this frame, with its `TotalLength` prefix, onto `dst`.
    pub fn encode(&self, dst: &mut Vec<u8>)
        requires
            body_len(self@) <= usize::MAX,
        ensures
            final(dst)@ == old(dst)@ + frame_bytes(self@),
    {
        let body_len = self.body_len();
        let topic = string_bytes(&self.topic);
        put_u32(dst, body_len as u32);
        dst.push(self.magic);
        put_u16(dst, self.api_key.as_u16());
        put_u32(dst, self.correlation_id);
        put_u16(dst, topic.len() as u16);
        put_slice(dst, topic.as_slice());
        put_u32(dst, self.partition);
        put_u32(dst, self.payload.len() as u32);
        put_slice(dst, self.payload.as_slice());
        proof {
            let f = self@;
            assert(dst@ =~= old(dst)@ + frame_bytes(f));
        }
    }

    /// Decode one frame from the front of `src` and say how many bytes it
    /// takes: none while the frame is incomplete or its length is out of
    /// bounds, its whole length prefix and body once the body is there,
    /// whether or not the body turns out valid.
    pub fn decode_prefix(src: &[u8]) -> (r: (Result<Option<Frame>, RukaError>, usize))
        ensures
            r.1 <= src@.len(),
            src@.skip(r.1 as int) == frame_rest(src@),
            match frame_outcome(src@) {
                FrameOutcome::Incomplete => r.0 matches Ok(None),
                FrameOutcome::Failed(e) => r.0 == Err::<Option<Frame>, RukaError>(e),
                FrameOutcome::Decoded(v) => r.0 matches Ok(Some(f)) && f@ == v,
            },
    {
        proof {
            assert(src@.skip(0) =~= src@);
        }
        let len = src.len();
        if len < 4 {
            return (Ok(None), 0);
        }
        let total_len = get_u32(src, 0) as usize;
        if total_len > MAX_FRAME_SIZE {
            return (Err(RukaError::FrameTooLarge { max: MAX_FRAME_SIZE, got: total_len }), 0);
        }
        if total_len < MIN_HEADER_SIZE {
            return (
                Err(RukaError::FrameTooShort { needed: MIN_HEADER_SIZE, have: total_len }),
                0,
            );
        }
        if len < 4 + total_len {
            return (Ok(None), 0);
        }
        let body = copy_range(src, 4, 4 + total_len);
        (Self::decode_body(body), 4 + total_len)
    }

    /// Decode one frame from the front of `src`.
    ///
    /// Returns `Ok(None)` and leaves `src` as it was while the frame is
    /// incomplete. Once the whole frame body is there, its bytes are taken
    /// off `src` whether or not the body turns out valid.
    pub fn decode(src: &mut Vec<u8>) -> (r: Result<Option<Frame>, RukaError>)
        ensures
            final(src)@ == frame_rest(old(src)@),
            match frame_outcome(old(src)@) {
                FrameOutcome::Incomplete => r matches Ok(None),
                FrameOutcome::Failed(e) => r == Err::<Option<Frame>, RukaError>(e),
                FrameOutcome::Decoded(v) => r matches Ok(Some(f)) && f@ == v,
            },
    {
        let (r, taken) = Self::decode_prefix(src.as_slice());
        if taken > 0 {
            let rest = copy_range(src.as_slice(), taken, src.len());
            *src = rest;
        }
        r
    }

    /// Parse a frame body of at least `MIN_HEADER_SIZE` bytes.
    fn decode_body(body: Vec<u8>) -> (r: Result<Option<Frame>, RukaError>)
        requires
            MIN_HEADER_SIZE <= body@.len() <= MAX_FRAME_SIZE,
        ensures
            match body_outcome(body@) {
                FrameOutcome::Incomplete => false,
                FrameOutcome::Failed(e) => r == Err::<Option<Frame>, RukaError>(e),
                FrameOutcome::Decoded(v) => r matches Ok(Some(f)) && f@ == v,
            },
    {
        let b = body.as_slice();
        let magic = b[0];
        if magic != MAGIC_BYTE {
            return Err(RukaError::InvalidMagicByte(magic));
        }
        let api_key = ApiKey::try_from(get_u16(b, 1))?;
        let correlation_id = get_u32(b, 3);
        let topic_len = get_u16(b, 7) as usize;
        if topic_len == 0 && api_key != ApiKey::Error {
            return Err(RukaError::InvalidTopicName);
        }
        if topic_len > 255 {
            return Err(RukaError::InvalidTopicName);
        }
        let remaining = b.len() - 9;
        if remaining < topic_len + 4 + 4 {
            return Err(RukaError::FrameTooShort { needed: topic_len + 4 + 4, have: remaining });
        }
        let topic_bytes = copy_range(b, 9, 9 + topic_len);
        let topic = match string_from_utf8(topic_bytes) {
            Some(t) => t,
            None => return Err(RukaError::InvalidTopicName),
        };
        let partition = get_u32(b, 9 + topic_len);
        let payload_len = get_u32(b, 13 + topic_len) as usize;
        let remaining = b.len() - 17 - topic_len;
        if remaining < payload_len {
            return Err(RukaError::FrameTooShort { needed: payload_len, have: remaining });
        }
        let payload = copy_range(b, 17 + topic_len, 17 + topic_len + payload_len);
        Ok(Some(Frame { magic, api_key, correlation_id, topic, partition, payload }))
    }
}

/// Where each field of an encoded body sits.
proof fn lemma_body_layout(f: FrameView)
    ensures
        ({
            let b = body_bytes(f);
            let tb = str_bytes(f.topic);
            let tl = tb.len() as int;
            let pl = f.payload.len() as int;
            &&& b.len() == body_len(f)
            &&& b[0] == f.magic
            &&& be16_at(b, 1) == f.api_key.code()
            &&& be32_at(b, 3) == f.correlation_id
            &&& be16_at(b, 7) == tl as u16
            &&& b.subrange(9, 9 + tl) == tb
            &&& be32_at(b, 9 + tl) == f.partition
            &&& be32_at(b, 13 + tl) == pl as u32
            &&& b.subrange(17 + tl, 17 + tl + pl) == f.payload
        }),
{
    let tb = str_bytes(f.topic);
    let tl = tb.len() as int;
    let pl = f.payload.len() as int;
    let p1 = seq![f.magic];
    let p2 = p1 + u16_be(f.api_key.code());
    let p3 = p2 + u32_be(f.correlation_id);
    let p4 = p3 + u16_be(tl as u16);
    let p5 = p4 + tb;
    let p6 = p5 + u32_be(f.partition);
    let p7 = p6 + u32_be(pl as u32);
    let b = p7 + f.payload;
    assert(b == body_bytes(f));
    lemma_u16_be(f.api_key.code());
    lemma_u32_be(f.correlation_id);
    lemma_u16_be(tl as u16);
    lemma_u32_be(f.partition);
    lemma_u32_be(pl as u32);
    assert(p7.len() == 17 + tl);
    // each field read back from the prefix that ends with it
    lemma_sub_right(p1, u16_be(f.api_key.code()));
    lemma_be16_at(p2, 1, f.api_key.code());
    lemma_sub_right(p2, u32_be(f.correlation_id));
    lemma_be32_at(p3, 3, f.correlation_id);
    lemma_sub_right(p3, u16_be(tl as u16));
    lemma_be16_at(p4, 7, tl as u16);
    lemma_sub_right(p4, tb);
    lemma_sub_right(p5, u32_be(f.partition));
    lemma_be32_at(p6, 9 + tl, f.partition);
    lemma_sub_right(p6, u32_be(pl as u32));
    lemma_be32_at(p7, 13 + tl, pl as u32);
    lemma_sub_right(p7, f.payload);
    // and carried to the whole body
    assert(b[0] == f.magic);
    assert(be16_at(b, 1) == be16_at(p2, 1));
    assert(be32_at(b, 3) == be32_at(p3, 3));
    assert(be16_at(b, 7) == be16_at(p4, 7));
    lemma_sub_left(p5, u32_be(f.partition), 9, 9 + tl);
    lemma_sub_left(p6, u32_be(pl as u32), 9, 9 + tl);
    lemma_sub_left(p7, f.payload, 9, 9 + tl);
    assert(be32_at(b, 9 + tl) == be32_at(p6, 9 + tl));
    assert(be32_at(b, 13 + tl) == be32_at(p7, 13 + tl));
}

/// Decoding the encoding of a well-formed frame, with anything after it,
/// gives the frame back and leaves exactly what followed it.
pub proof fn law_frame_round_trip(f: FrameView, rest: Seq<u8>)
    requires
        well_formed(f),
    ensures
        takes_frame(frame_bytes(f) + rest),
        frame_outcome(frame_bytes(f) + rest) == FrameOutcome::Decoded(f),
        frame_rest(frame_bytes(f) + rest) == rest,
{
    let n = body_len(f) as int;
    let tl = str_bytes(f.topic).len() as int;
    let b = body_bytes(f);
    let head = u32_be(n as u32);
    let s = frame_bytes(f) + rest;
    lemma_body_layout(f);
    lemma_str_bytes_round_trip(f.topic);
    lemma_u32_be(n as u32);
    assert(s == head + (b + rest));
    lemma_sub_left(head, b + rest, 0, 4);
    assert(head.subrange(0, 4) =~= head);
    lemma_be32_at(s, 0, n as u32);
    assert(total_len(s) == n);
    lemma_sub_right(head, b + rest);
    lemma_sub_left(b, rest, 0, n);
    assert(s.subrange(4, 4 + n) == b) by {
        assert(s.subrange(4, 4 + n) =~= (b + rest).subrange(0, n));
    }
    assert(s.skip(4 + n) =~= rest);
    assert(body_outcome(b) == FrameOutcome::Decoded(f));
}

/// Every strict prefix of a well-formed frame's encoding decodes as
/// incomplete: a frame is never produced before all of its bytes arrived.
pub proof fn law_frame_prefix_incomplete(f: FrameView, k: nat)
    requires
        well_formed(f),
        k < frame_bytes(f).len(),
    ensures
        frame_outcome(frame_bytes(f).subrange(0, k as int)) == FrameOutcome::Incomplete,
        frame_rest(frame_bytes(f).subrange(0, k as int)) == frame_bytes(f).subrange(0, k as int),
{
    let n = body_len(f) as int;
    let p = frame_bytes(f).subrange(0, k as int);
    lemma_u32_be(n as u32);
    if k >= 4 {
        assert(p.subrange(0, 4) =~= u32_be(n as u32));
        assert(total_len(p) == n);
    }
}

} // verus!
