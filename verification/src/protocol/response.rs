//! Responses sent back to clients; they share the request frame format.
use vstd::prelude::*;
use crate::protocol::frame::{Frame, FrameView};
use crate::protocol::types::{ApiKey, ErrorCode, MAGIC_BYTE};
use crate::text::{str_bytes, string_bytes};
use crate::wire::{
    be16_at, be64_at, lemma_u16_be, lemma_u64_be, put_slice, put_u16, put_u64, u16_be, u64_be,
};
use crate::protocol::frame::{frame_bytes, frame_outcome, frame_rest, law_frame_round_trip, well_formed, FrameOutcome};

verus! {

/// Response to a successful produce request.
#[derive(Debug, Clone, PartialEq, Eq)]
pub struct ProduceResponse {
    /// Echoed correlation ID from the request.
    pub correlation_id: u32,
    /// The topic the message was written to.
    pub topic: String,
    /// The partition the message was written to.
    pub partition: u32,
    /// The committed offset assigned to the message.
    pub offset: u64,
}

/// Response to a successful produce batch request.
#[derive(Debug, Clone, PartialEq, Eq)]
pub struct ProduceBatchResponse {
    /// Echoed correlation ID from the request.
    pub correlation_id: u32,
    /// The topic the batch was written to.
    pub topic: String,
    /// The partition the batch was written to.
    pub partition: u32,
    /// The offset assigned to the first message of the batch.
    pub base_offset: u64,
}

/// Response to a fetch request.
#[derive(Debug, Clone, PartialEq, Eq)]
pub struct FetchResponse {
    /// Echoed correlation ID from the request.
    pub correlation_id: u32,
    /// The topic being read.
    pub topic: String,
    /// The partition being read.
    pub partition: u32,
    /// The fetched payload data.
    pub payload: Vec<u8>,
}

/// An error response sent when a request cannot be fulfilled.
#[derive(Debug, Clone, PartialEq, Eq)]
pub struct ErrorResponse {
    /// Echoed correlation ID from the request.
    pub correlation_id: u32,
    /// Error code categorizing the failure.
    pub error_code: ErrorCode,
    /// Detailed error message.
    pub error_message: String,
}

/// A typed response.
#[derive(Debug, Clone, PartialEq, Eq)]
pub enum Response {
    Produce(ProduceResponse),
    ProduceBatch(ProduceBatchResponse),
    Fetch(FetchResponse),
    Error(ErrorResponse),
}

/// The frame that carries a response.
pub open spec fn response_frame(r: Response) -> FrameView {
    match r {
        Response::Produce(p) => FrameView {
            magic: MAGIC_BYTE,
            api_key: ApiKey::Produce,
            correlation_id: p.correlation_id,
            topic: p.topic@,
            partition: p.partition,
            payload: u64_be(p.offset),
        },
        Response::ProduceBatch(p) => FrameView {
            magic: MAGIC_BYTE,
            api_key: ApiKey::ProduceBatch,
            correlation_id: p.correlation_id,
            topic: p.topic@,
            partition: p.partition,
            payload: u64_be(p.base_offset),
        },
        Response::Fetch(p) => FrameView {
            magic: MAGIC_BYTE,
            api_key: ApiKey::Fetch,
            correlation_id: p.correlation_id,
            topic: p.topic@,
            partition: p.partition,
            payload: p.payload@,
        },
        Response::Error(p) => FrameView {
            magic: MAGIC_BYTE,
            api_key: ApiKey::Error,
            correlation_id: p.correlation_id,
            topic: Seq::empty(),
            partition: 0,
            payload: u16_be(p.error_code.code()) + str_bytes(p.error_message@),
        },
    }
}

impl ProduceResponse {
    /// Convert to a wire frame; the offset is the 8-byte big-endian payload.
    pub fn into_frame(self) -> (r: Frame)
        ensures
            r@ == response_frame(Response::Produce(self)),
            r.magic == MAGIC_BYTE && r.api_key == ApiKey::Produce,
            r.correlation_id == self.correlation_id && r.topic@ == self.topic@ && r.partition
                == self.partition,
            r.payload@.len() == 8 && be64_at(r.payload@, 0) == self.offset,
    {
        let mut payload: Vec<u8> = Vec::with_capacity(8);
        put_u64(&mut payload, self.offset);
        proof {
            assert(payload@ =~= u64_be(self.offset));
            lemma_u64_be(self.offset);
        }
        Frame {
            magic: MAGIC_BYTE,
            api_key: ApiKey::Produce,
            correlation_id: self.correlation_id,
            topic: self.topic,
            partition: self.partition,
            payload,
        }
    }
}

impl ProduceBatchResponse {
    /// Convert to a wire frame; the base offset is the 8-byte big-endian payload.
    pub fn into_frame(self) -> (r: Frame)
        ensures
            r@ == response_frame(Response::ProduceBatch(self)),
            r.magic == MAGIC_BYTE && r.api_key == ApiKey::ProduceBatch,
            r.correlation_id == self.correlation_id && r.topic@ == self.topic@ && r.partition
                == self.partition,
            r.payload@.len() == 8 && be64_at(r.payload@, 0) == self.base_offset,
    {
        let mut payload: Vec<u8> = Vec::with_capacity(8);
        put_u64(&mut payload, self.base_offset);
        proof {
            assert(payload@ =~= u64_be(self.base_offset));
            lemma_u64_be(self.base_offset);
        }
        Frame {
            magic: MAGIC_BYTE,
            api_key: ApiKey::ProduceBatch,
            correlation_id: self.correlation_id,
            topic: self.topic,
            partition: self.partition,
            payload,
        }
    }
}

impl FetchResponse {
    /// Convert to a wire frame carrying the fetched payload.
    pub fn into_frame(self) -> (r: Frame)
        ensures
            r@ == response_frame(Response::Fetch(self)),
            r.magic == MAGIC_BYTE && r.api_key == ApiKey::Fetch,
            r.correlation_id == self.correlation_id && r.topic@ == self.topic@ && r.partition
                == self.partition,
            r.payload@ == self.payload@,
    {
        Frame {
            magic: MAGIC_BYTE,
            api_key: ApiKey::Fetch,
            correlation_id: self.correlation_id,
            topic: self.topic,
            partition: self.partition,
            payload: self.payload,
        }
    }
}

impl ErrorResponse {
    /// Convert to a wire frame: an `Error` frame with an empty topic,
    /// partition 0, and the payload `[ErrorCode: 2B][Message: VarB]`.
    pub fn into_frame(self) -> (r: Frame)
        ensures
            r@ == response_frame(Response::Error(self)),
            r.magic == MAGIC_BYTE && r.api_key == ApiKey::Error,
            r.correlation_id == self.correlation_id && r.topic@.len() == 0 && r.partition == 0,
            r.payload@.len() >= 2 && be16_at(r.payload@, 0) == self.error_code.code(),
            r.payload@.skip(2) == str_bytes(self.error_message@),
    {
        let msg_bytes = string_bytes(&self.error_message);
        let mut payload: Vec<u8> = Vec::new();
        put_u16(&mut payload, self.error_code.as_u16());
        put_slice(&mut payload, msg_bytes.as_slice());
        proof {
            assert(payload@ =~= u16_be(self.error_code.code()) + str_bytes(self.error_message@));
            lemma_u16_be(self.error_code.code());
            assert(payload@.skip(2) =~= str_bytes(self.error_message@));
            assert(payload@[0] == u16_be(self.error_code.code())[0]);
            assert(payload@[1] == u16_be(self.error_code.code())[1]);
        }
        Frame {
            magic: MAGIC_BYTE,
            api_key: ApiKey::Error,
            correlation_id: self.correlation_id,
            topic: String::new(),
            partition: 0,
            payload,
        }
    }

    /// An error response with the given code and message.
    pub fn from_error(correlation_id: u32, code: ErrorCode, message: String) -> (r: Response)
        ensures
            r == Response::Error(
                ErrorResponse { correlation_id, error_code: code, error_message: message },
            ),
    {
        Response::Error(ErrorResponse { correlation_id, error_code: code, error_message: message })
    }
}

impl Response {
    /// Convert any response into its wire frame.
    pub fn into_frame(self) -> (r: Frame)
        ensures
            r@ == response_frame(self),
    {
        match self {
            Response::Produce(r) => r.into_frame(),
            Response::ProduceBatch(r) => r.into_frame(),
            Response::Fetch(r) => r.into_frame(),
            Response::Error(r) => r.into_frame(),
        }
    }
}

/// The correlation id a response echoes.
pub open spec fn response_correlation_id(r: Response) -> u32 {
    match r {
        Response::Produce(p) => p.correlation_id,
        Response::ProduceBatch(p) => p.correlation_id,
        Response::Fetch(p) => p.correlation_id,
        Response::Error(p) => p.correlation_id,
    }
}

/// A response sent in a frame the decoder accepts is read back from the
/// wire with everything it says: whatever bytes follow, decoding gives a
/// frame that echoes the correlation id; a produce or batch answer names
/// the topic and partition written to and carries the offset as 8
/// big-endian bytes; a fetch answer names the topic and partition read and
/// carries the fetched bytes; an error answer has no topic, partition 0,
/// and carries the error code then the message.
#[verifier::spinoff_prover]
pub proof fn law_response_on_wire(r: Response, rest: Seq<u8>)
    requires
        well_formed(response_frame(r)),
    ensures
        frame_outcome(frame_bytes(response_frame(r)) + rest) matches FrameOutcome::Decoded(f) && {
            &&& f.magic == MAGIC_BYTE
            &&& f.correlation_id == response_correlation_id(r)
            &&& match r {
                Response::Produce(p) => {
                    &&& f.api_key == ApiKey::Produce
                    &&& f.topic == p.topic@
                    &&& f.partition == p.partition
                    &&& f.payload.len() == 8
                    &&& be64_at(f.payload, 0) == p.offset
                },
                Response::ProduceBatch(p) => {
                    &&& f.api_key == ApiKey::ProduceBatch
                    &&& f.topic == p.topic@
                    &&& f.partition == p.partition
                    &&& f.payload.len() == 8
                    &&& be64_at(f.payload, 0) == p.base_offset
                },
                Response::Fetch(p) => {
                    &&& f.api_key == ApiKey::Fetch
                    &&& f.topic == p.topic@
                    &&& f.partition == p.partition
                    &&& f.payload == p.payload@
                },
                Response::Error(e) => {
                    &&& f.api_key == ApiKey::Error
                    &&& f.topic.len() == 0
                    &&& f.partition == 0
                    &&& f.payload.len() >= 2
                    &&& be16_at(f.payload, 0) == e.error_code.code()
                    &&& f.payload.skip(2) == str_bytes(e.error_message@)
                },
            }
        },
        frame_rest(frame_bytes(response_frame(r)) + rest) == rest,
{
    law_frame_round_trip(response_frame(r), rest);
    match r {
        Response::Produce(p) => {
            lemma_u64_be(p.offset);
        },
        Response::ProduceBatch(p) => {
            lemma_u64_be(p.base_offset);
        },
        Response::Fetch(p) => {},
        Response::Error(e) => {
            let c = e.error_code.code();
            lemma_u16_be(c);
            let pl = u16_be(c) + str_bytes(e.error_message@);
            assert(pl.skip(2) =~= str_bytes(e.error_message@));
            assert(pl[0] == u16_be(c)[0] && pl[1] == u16_be(c)[1]);
        },
    }
}

} // verus!
