//! Building the response to a request from the outcome of the partition
//! operation it asked for.
//!
//! A produce appends its payload as a record with no key; a batch produce
//! appends its payloads; a fetch reads records from an offset within a byte
//! budget. Failures become error responses that carry the error's code and
//! message.
use vstd::prelude::*;
use crate::error::{message, RukaError};
use crate::protocol::response::{
    ErrorResponse, FetchResponse, ProduceBatchResponse, ProduceResponse, Response,
};
use crate::protocol::types::ErrorCode;
use crate::storage::log_model::log_of;
use crate::storage::record::{record_bytes, record_size, Record, RecordView};
use crate::storage::segment::records_view;
use crate::wire::{put_u32, u32_be};

verus! {

/// Whether `r` is the error response for `e` to the request with
/// `correlation_id`: its code and its message are the error's.
pub open spec fn is_error_response(r: Response, correlation_id: u32, e: RukaError) -> bool {
    r matches Response::Error(er) && er.correlation_id == correlation_id && er.error_code
        == ErrorCode::of_error(&e) && er.error_message@ == message(e)
}

/// The error response for `e` to the request with `correlation_id`.
pub fn error_response(correlation_id: u32, e: RukaError) -> (r: Response)
    ensures
        is_error_response(r, correlation_id, e),
{
    let code = ErrorCode::from_error(&e);
    let text = e.to_string();
    ErrorResponse::from_error(correlation_id, code, text)
}

/// The response to a produce request, given what appending its payload
/// gave: the offset assigned, or the error.
pub fn produce_response(
    correlation_id: u32,
    topic: String,
    partition: u32,
    result: Result<u64, RukaError>,
) -> (r: Response)
    ensures
        match result {
            Ok(offset) => r == Response::Produce(
                ProduceResponse { correlation_id, topic, partition, offset },
            ),
            Err(e) => is_error_response(r, correlation_id, e),
        },
{
    match result {
        Ok(offset) => Response::Produce(ProduceResponse { correlation_id, topic, partition, offset }),
        Err(e) => error_response(correlation_id, e),
    }
}

/// The response to a batch produce request, given what appending its
/// payloads gave: the offset of the first, or the error.
pub fn produce_batch_response(
    correlation_id: u32,
    topic: String,
    partition: u32,
    result: Result<u64, RukaError>,
) -> (r: Response)
    ensures
        match result {
            Ok(base_offset) => r == Response::ProduceBatch(
                ProduceBatchResponse { correlation_id, topic, partition, base_offset },
            ),
            Err(e) => is_error_response(r, correlation_id, e),
        },
{
    match result {
        Ok(base_offset) => Response::ProduceBatch(
            ProduceBatchResponse { correlation_id, topic, partition, base_offset },
        ),
        Err(e) => error_response(correlation_id, e),
    }
}

/// The payload of a fetch response: the number of records as 4 big-endian
/// bytes (cut to 32 bits), then each record in its log encoding.
pub open spec fn fetch_payload(recs: Seq<RecordView>) -> Seq<u8> {
    u32_be(recs.len() as u32) + log_of(recs)
}

/// The payload of a fetch response for `records`.
pub fn encode_records(records: &Vec<Record>) -> (r: Vec<u8>)
    requires
        forall|i: int| 0 <= i < records@.len() ==> record_size(#[trigger] records@[i]@) <= usize::MAX,
    ensures
        r@ == fetch_payload(records_view(records@)),
{
    let ghost rs = records_view(records@);
    let mut payload: Vec<u8> = Vec::new();
    put_u32(&mut payload, records.len() as u32);
    let ghost head = payload@;
    let mut i: usize = 0;
    proof {
        reveal(log_of);
        assert(rs.take(0) =~= Seq::<RecordView>::empty());
        assert(payload@ =~= head + log_of(rs.take(0)));
    }
    while i < records.len()
        invariant
            i <= records@.len(),
            rs == records_view(records@),
            head == u32_be(records@.len() as u32),
            payload@ == head + log_of(rs.take(i as int)),
            forall|k: int| 0 <= k < records@.len() ==> record_size(#[trigger] records@[k]@) <= usize::MAX,
        decreases records@.len() - i,
    {
        records[i].encode(&mut payload);
        proof {
            reveal(log_of);
            assert(rs.take(i + 1).drop_last() =~= rs.take(i as int));
            assert(rs.take(i + 1).last() == records@[i as int]@);
            assert(payload@ =~= head + log_of(rs.take(i + 1)));
        }
        i = i + 1;
    }
    proof {
        assert(rs.take(i as int) =~= rs);
    }
    payload
}

/// The response to a fetch request from `offset`, given what reading the
/// partition gave: the records, or the error. No records at all means the
/// offset was not found.
pub fn fetch_response(
    correlation_id: u32,
    topic: String,
    partition: u32,
    offset: u64,
    result: Result<Vec<Record>, RukaError>,
) -> (r: Response)
    requires
        result matches Ok(recs) ==> forall|i: int|
            0 <= i < recs@.len() ==> record_size(#[trigger] recs@[i]@) <= usize::MAX,
    ensures
        match result {
            Ok(recs) => if recs@.len() == 0 {
                is_error_response(r, correlation_id, RukaError::OffsetNotFound(offset))
            } else {
                r matches Response::Fetch(f) && f.correlation_id == correlation_id && f.topic
                    == topic && f.partition == partition && f.payload@ == fetch_payload(
                    records_view(recs@),
                )
            },
            Err(e) => is_error_response(r, correlation_id, e),
        },
{
    match result {
        Ok(recs) => {
            if recs.len() == 0 {
                error_response(correlation_id, RukaError::OffsetNotFound(offset))
            } else {
                let payload = encode_records(&recs);
                Response::Fetch(FetchResponse { correlation_id, topic, partition, payload })
            }
        },
        Err(e) => error_response(correlation_id, e),
    }
}

} // verus!
