//! Framing of `Frame` values over a byte stream.
use vstd::prelude::*;
use crate::error::RukaError;
use crate::protocol::frame::{
    body_len, frame_bytes, frame_outcome, frame_rest, law_frame_round_trip, well_formed, Frame,
    FrameOutcome, FrameView,
};

verus! {

/// Encodes and decodes `Frame` values on a byte stream; each message is
/// prefixed by the length of the rest of it.
#[derive(Debug)]
pub struct RukaCodec;

impl Default for RukaCodec {
    fn default() -> (r: Self) {
        RukaCodec
    }
}

impl RukaCodec {
    /// Create a new codec.
    pub fn new() -> (r: Self)
        ensures
            r == RukaCodec,
    {
        RukaCodec
    }

    /// Take the next frame off the front of `src`, as `Frame::decode` does.
    pub fn decode(&mut self, src: &mut Vec<u8>) -> (r: Result<Option<Frame>, RukaError>)
        ensures
            final(src)@ == frame_rest(old(src)@),
            match frame_outcome(old(src)@) {
                FrameOutcome::Incomplete => r matches Ok(None),
                FrameOutcome::Failed(e) => r == Err::<Option<Frame>, RukaError>(e),
                FrameOutcome::Decoded(v) => r matches Ok(Some(f)) && f@ == v,
            },
    {
        Frame::decode(src)
    }

    /// Append the encoding of `item` to `dst`; this never fails.
    pub fn encode(&mut self, item: Frame, dst: &mut Vec<u8>) -> (r: Result<(), RukaError>)
        requires
            body_len(item@) <= usize::MAX,
        ensures
            r is Ok,
            final(dst)@ == old(dst)@ + frame_bytes(item@),
    {
        item.encode(dst);
        Ok(())
    }
}

/// What the codec writes for a well-formed frame, it reads back: encoding
/// is admitted for the frame, and decoding the bytes it appends, whatever
/// bytes follow them, gives the frame and leaves exactly those bytes.
pub proof fn law_codec_round_trip(f: FrameView, rest: Seq<u8>)
    requires
        well_formed(f),
    ensures
        body_len(f) <= usize::MAX,
        frame_outcome(frame_bytes(f) + rest) == FrameOutcome::Decoded(f),
        frame_rest(frame_bytes(f) + rest) == rest,
{
    law_frame_round_trip(f, rest);
}

} // verus!
