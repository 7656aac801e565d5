//! Wire protocol: frames, the codec, typed requests and responses.

use ruka::error::RukaError;
use ruka::protocol::codec::RukaCodec;
use ruka::protocol::frame::Frame;
use ruka::protocol::request::{FetchRequest, ProduceBatchRequest, ProduceRequest, Request};
use ruka::protocol::response::{
    ErrorResponse, FetchResponse, ProduceBatchResponse, ProduceResponse, Response,
};
use ruka::protocol::types::{ApiKey, ErrorCode, MAGIC_BYTE, MAX_FRAME_SIZE};
use ruka::storage::segment::Record;

fn make_produce_frame() -> Frame {
    Frame {
        magic: MAGIC_BYTE,
        api_key: ApiKey::Produce,
        correlation_id: 42,
        topic: "test-topic".to_string(),
        partition: 0,
        payload: b"hello world".to_vec(),
    }
}

// Frame round trips and decoding.

#[test]
fn round_trip_encode_decode() {
    let frame = make_produce_frame();
    let mut buf = Vec::new();
    frame.encode(&mut buf);

    let decoded = Frame::decode(&mut buf).unwrap().unwrap();
    assert_eq!(frame, decoded);
    assert!(buf.is_empty(), "all bytes should be consumed");
}

#[test]
fn decode_partial_returns_none() {
    let frame = make_produce_frame();
    let mut buf = Vec::new();
    frame.encode(&mut buf);

    let half = buf.len() / 2;
    let mut partial_buf = buf[..half].to_vec();
    let result = Frame::decode(&mut partial_buf).unwrap();
    assert!(result.is_none());
}

#[test]
fn decode_bad_magic_byte() {
    let mut buf = Vec::new();
    let frame = make_produce_frame();
    frame.encode(&mut buf);

    buf[4] = 0xFF;

    let result = Frame::decode(&mut buf);
    assert!(matches!(result, Err(RukaError::InvalidMagicByte(0xFF))));
}

#[test]
fn decode_unknown_api_key() {
    let mut buf = Vec::new();
    let frame = make_produce_frame();
    frame.encode(&mut buf);

    buf[5] = 0x00;
    buf[6] = 0xFF;

    let result = Frame::decode(&mut buf);
    assert!(matches!(result, Err(RukaError::UnknownApiKey(255))));
}

#[test]
fn empty_payload() {
    let frame = Frame {
        magic: MAGIC_BYTE,
        api_key: ApiKey::Fetch,
        correlation_id: 0,
        topic: "t".to_string(),
        partition: 0,
        payload: Vec::new(),
    };

    let mut buf = Vec::new();
    frame.encode(&mut buf);

    let decoded = Frame::decode(&mut buf).unwrap().unwrap();
    assert_eq!(frame, decoded);
}

#[test]
fn multiple_frames_in_buffer() {
    let f1 = make_produce_frame();
    let f2 = Frame {
        magic: MAGIC_BYTE,
        api_key: ApiKey::Fetch,
        correlation_id: 99,
        topic: "other".to_string(),
        partition: 5,
        payload: b"fetch me".to_vec(),
    };

    let mut buf = Vec::new();
    f1.encode(&mut buf);
    f2.encode(&mut buf);

    let d1 = Frame::decode(&mut buf).unwrap().unwrap();
    let d2 = Frame::decode(&mut buf).unwrap().unwrap();
    assert_eq!(f1, d1);
    assert_eq!(f2, d2);
    assert!(buf.is_empty());
}

#[test]
fn frame_produce_round_trip() {
    let frame = Frame {
        magic: MAGIC_BYTE,
        api_key: ApiKey::Produce,
        correlation_id: 1,
        topic: "orders".to_string(),
        partition: 0,
        payload: b"order-123-created".to_vec(),
    };
    let mut buf = Vec::new();
    frame.encode(&mut buf);

    let decoded = Frame::decode(&mut buf).unwrap().unwrap();
    assert_eq!(frame, decoded);
    assert!(buf.is_empty());
}

#[test]
fn frame_fetch_round_trip() {
    let offset_payload = 42u64.to_be_bytes().to_vec();

    let frame = Frame {
        magic: MAGIC_BYTE,
        api_key: ApiKey::Fetch,
        correlation_id: 2,
        topic: "events".to_string(),
        partition: 3,
        payload: offset_payload,
    };
    let mut buf = Vec::new();
    frame.encode(&mut buf);

    let decoded = Frame::decode(&mut buf).unwrap().unwrap();
    assert_eq!(frame, decoded);
}

#[test]
fn frame_empty_payload() {
    let frame = Frame {
        magic: MAGIC_BYTE,
        api_key: ApiKey::Produce,
        correlation_id: 0,
        topic: "t".to_string(),
        partition: 0,
        payload: Vec::new(),
    };
    let mut buf = Vec::new();
    frame.encode(&mut buf);

    let decoded = Frame::decode(&mut buf).unwrap().unwrap();
    assert_eq!(frame, decoded);
    assert!(decoded.payload.is_empty());
}

#[test]
fn frame_single_char_topic() {
    let frame = Frame {
        magic: MAGIC_BYTE,
        api_key: ApiKey::Produce,
        correlation_id: 7,
        topic: "x".to_string(),
        partition: 0,
        payload: b"y".to_vec(),
    };
    let mut buf = Vec::new();
    frame.encode(&mut buf);

    let decoded = Frame::decode(&mut buf).unwrap().unwrap();
    assert_eq!(frame, decoded);
}

#[test]
fn frame_long_topic_name() {
    let long_topic = "a".repeat(1000);
    let frame = Frame {
        magic: MAGIC_BYTE,
        api_key: ApiKey::Produce,
        correlation_id: 8,
        topic: long_topic.clone(),
        partition: 99,
        payload: b"data".to_vec(),
    };
    let mut buf = Vec::new();
    frame.encode(&mut buf);

    let decoded = Frame::decode(&mut buf);
    assert!(decoded.is_err());
}

#[test]
fn frame_large_payload() {
    let large_payload = vec![0xABu8; 65536];
    let frame = Frame {
        magic: MAGIC_BYTE,
        api_key: ApiKey::Produce,
        correlation_id: 10,
        topic: "big-data".to_string(),
        partition: 0,
        payload: large_payload.clone(),
    };
    let mut buf = Vec::new();
    frame.encode(&mut buf);

    let decoded = Frame::decode(&mut buf).unwrap().unwrap();
    assert_eq!(decoded.payload, large_payload);
}

#[test]
fn frame_max_partition_id() {
    let frame = Frame {
        magic: MAGIC_BYTE,
        api_key: ApiKey::Produce,
        correlation_id: 11,
        topic: "test".to_string(),
        partition: u32::MAX,
        payload: b"data".to_vec(),
    };
    let mut buf = Vec::new();
    frame.encode(&mut buf);

    let decoded = Frame::decode(&mut buf).unwrap().unwrap();
    assert_eq!(decoded.partition, u32::MAX);
}

#[test]
fn frame_max_correlation_id() {
    let frame = Frame {
        magic: MAGIC_BYTE,
        api_key: ApiKey::Fetch,
        correlation_id: u32::MAX,
        topic: "test".to_string(),
        partition: 0,
        payload: vec![0u8; 8],
    };
    let mut buf = Vec::new();
    frame.encode(&mut buf);

    let decoded = Frame::decode(&mut buf).unwrap().unwrap();
    assert_eq!(decoded.correlation_id, u32::MAX);
}

#[test]
fn decode_empty_buffer_returns_none() {
    let mut buf = Vec::new();
    let result = Frame::decode(&mut buf).unwrap();
    assert!(result.is_none());
}

#[test]
fn decode_partial_length_returns_none() {
    let mut buf = vec![0x00, 0x00];
    let result = Frame::decode(&mut buf).unwrap();
    assert!(result.is_none());
}

#[test]
fn decode_bad_magic_byte_errors() {
    let frame = Frame {
        magic: MAGIC_BYTE,
        api_key: ApiKey::Produce,
        correlation_id: 1,
        topic: "t".to_string(),
        partition: 0,
        payload: b"x".to_vec(),
    };
    let mut buf = Vec::new();
    frame.encode(&mut buf);

    buf[4] = 0xFF;

    let result = Frame::decode(&mut buf);
    assert!(result.is_err());
    let err_msg = result.unwrap_err().to_string();
    assert!(err_msg.contains("magic byte"));
}

#[test]
fn decode_unknown_api_key_errors() {
    let frame = Frame {
        magic: MAGIC_BYTE,
        api_key: ApiKey::Produce,
        correlation_id: 1,
        topic: "t".to_string(),
        partition: 0,
        payload: b"x".to_vec(),
    };
    let mut buf = Vec::new();
    frame.encode(&mut buf);

    buf[5] = 0x00;
    buf[6] = 0xFF;

    let result = Frame::decode(&mut buf);
    assert!(result.is_err());
    let err_msg = result.unwrap_err().to_string();
    assert!(err_msg.contains("API key"));
}

#[test]
fn decode_truncated_frame_returns_none() {
    let frame = Frame {
        magic: MAGIC_BYTE,
        api_key: ApiKey::Produce,
        correlation_id: 1,
        topic: "test-topic".to_string(),
        partition: 0,
        payload: b"hello world".to_vec(),
    };
    let mut buf = Vec::new();
    frame.encode(&mut buf);

    let partial_len = buf.len() / 2;
    buf.truncate(partial_len);

    let result = Frame::decode(&mut buf).unwrap();
    assert!(result.is_none(), "truncated frame should return None");
}

#[test]
fn decode_random_bytes_no_panic() {
    let random_data: Vec<u8> = (0..200).map(|i: u32| (i * 37 + 13) as u8).collect();

    let mut buf = Vec::new();
    buf.extend_from_slice(&(random_data.len() as u32).to_be_bytes());
    buf.extend_from_slice(&random_data);

    let result = Frame::decode(&mut buf);
    assert!(result.is_err());
}

#[test]
fn multiple_frames_sequential_decode() {
    let frames: Vec<Frame> = (0..5u32)
        .map(|i| Frame {
            magic: MAGIC_BYTE,
            api_key: if i % 2 == 0 {
                ApiKey::Produce
            } else {
                ApiKey::Fetch
            },
            correlation_id: i,
            topic: format!("topic-{}", i),
            partition: i,
            payload: format!("payload-{}", i).into_bytes(),
        })
        .collect();

    let mut buf = Vec::new();
    for frame in &frames {
        frame.encode(&mut buf);
    }

    for expected in &frames {
        let decoded = Frame::decode(&mut buf).unwrap().unwrap();
        assert_eq!(&decoded, expected);
    }
    assert!(buf.is_empty());
}

#[test]
fn wire_format_byte_layout() {
    let frame = Frame {
        magic: MAGIC_BYTE,
        api_key: ApiKey::Produce,
        correlation_id: 0x01020304,
        topic: "AB".to_string(),
        partition: 0x05060708,
        payload: b"\x09\x0A".to_vec(),
    };
    let mut buf = Vec::new();
    frame.encode(&mut buf);

    let expected_body_len: u32 = 21;

    assert_eq!(&buf[0..4], &expected_body_len.to_be_bytes());
    assert_eq!(buf[4], 0xCA);
    assert_eq!(&buf[5..7], &[0x00, 0x01]);
    assert_eq!(&buf[7..11], &[0x01, 0x02, 0x03, 0x04]);
    assert_eq!(&buf[11..13], &[0x00, 0x02]);
    assert_eq!(&buf[13..15], b"AB");
    assert_eq!(&buf[15..19], &[0x05, 0x06, 0x07, 0x08]);
    assert_eq!(&buf[19..23], &[0x00, 0x00, 0x00, 0x02]);
    assert_eq!(&buf[23..25], &[0x09, 0x0A]);
    assert_eq!(buf.len(), 25);
}

#[test]
fn frame_size_too_large() {
    let mut buf = Vec::new();
    buf.extend_from_slice(&((MAX_FRAME_SIZE + 1) as u32).to_be_bytes());
    buf.extend_from_slice(&[0u8; 32]);

    let result = Frame::decode(&mut buf);
    assert!(result.is_err());
    let err_msg = result.unwrap_err().to_string();
    assert!(err_msg.contains("exceeds maximum size"));
}

#[test]
fn frame_allows_empty_topic_for_error_only() {
    let error_frame = Frame {
        magic: MAGIC_BYTE,
        api_key: ApiKey::Error,
        correlation_id: 10,
        topic: "".to_string(),
        partition: 0,
        payload: b"err".to_vec(),
    };
    let mut buf = Vec::new();
    error_frame.encode(&mut buf);

    let decoded = Frame::decode(&mut buf);
    assert!(
        decoded.is_ok(),
        "Error frame with empty topic should decode successfully"
    );
    let decoded = decoded.unwrap().unwrap();
    assert_eq!(decoded.topic, "");

    let produce_frame = Frame {
        magic: MAGIC_BYTE,
        api_key: ApiKey::Produce,
        correlation_id: 11,
        topic: "".to_string(),
        partition: 0,
        payload: b"data".to_vec(),
    };
    let mut buf = Vec::new();
    produce_frame.encode(&mut buf);

    let result = Frame::decode(&mut buf);
    assert!(
        result.is_err(),
        "Produce frame with empty topic should fail"
    );
}

// The codec.

#[test]
fn codec_encode_then_decode() {
    let mut codec = RukaCodec::new();
    let frame = Frame {
        magic: MAGIC_BYTE,
        api_key: ApiKey::Produce,
        correlation_id: 100,
        topic: "codec-test".to_string(),
        partition: 7,
        payload: b"codec payload".to_vec(),
    };

    let mut buf = Vec::new();
    codec.encode(frame.clone(), &mut buf).unwrap();

    let decoded = codec.decode(&mut buf).unwrap().unwrap();
    assert_eq!(frame, decoded);
}

#[test]
fn codec_decode_incremental() {
    let mut codec = RukaCodec::new();
    let frame = Frame {
        magic: MAGIC_BYTE,
        api_key: ApiKey::Fetch,
        correlation_id: 200,
        topic: "incremental".to_string(),
        partition: 0,
        payload: b"data".to_vec(),
    };

    let mut full_buf = Vec::new();
    codec.encode(frame.clone(), &mut full_buf).unwrap();

    let mut partial = Vec::new();
    for i in 0..full_buf.len() {
        partial.extend_from_slice(&full_buf[i..i + 1]);
        let result = codec.decode(&mut partial).unwrap();
        if i < full_buf.len() - 1 {
            assert!(result.is_none(), "should not decode until all bytes arrive");
        } else {
            assert_eq!(result.unwrap(), frame);
        }
    }
}

#[test]
fn codec_round_trip() {
    let mut codec = RukaCodec::new();
    let frame = Frame {
        magic: MAGIC_BYTE,
        api_key: ApiKey::Produce,
        correlation_id: 500,
        topic: "codec-integration".to_string(),
        partition: 4,
        payload: b"codec test data".to_vec(),
    };

    let mut buf = Vec::new();
    codec.encode(frame.clone(), &mut buf).unwrap();

    let decoded = codec.decode(&mut buf).unwrap().unwrap();
    assert_eq!(frame, decoded);
}

#[test]
fn codec_multiple_frames() {
    let mut codec = RukaCodec::new();

    let frames: Vec<Frame> = (0..10u32)
        .map(|i| Frame {
            magic: MAGIC_BYTE,
            api_key: ApiKey::Produce,
            correlation_id: i * 100,
            topic: format!("t{}", i),
            partition: i,
            payload: vec![i as u8; (i as usize + 1) * 10],
        })
        .collect();

    let mut buf = Vec::new();
    for frame in &frames {
        codec.encode(frame.clone(), &mut buf).unwrap();
    }

    for expected in &frames {
        let decoded = codec.decode(&mut buf).unwrap().unwrap();
        assert_eq!(&decoded, expected);
    }
    assert!(buf.is_empty());
}

#[test]
fn codec_incremental_feed() {
    let mut codec = RukaCodec::new();
    let frame = Frame {
        magic: MAGIC_BYTE,
        api_key: ApiKey::Fetch,
        correlation_id: 999,
        topic: "incremental-test".to_string(),
        partition: 0,
        payload: b"gradual".to_vec(),
    };

    let mut full = Vec::new();
    codec.encode(frame.clone(), &mut full).unwrap();

    let mut partial = Vec::new();
    let total = full.len();
    for i in 0..total {
        partial.extend_from_slice(&full[i..i + 1]);
        let result = codec.decode(&mut partial).unwrap();
        if i < total - 1 {
            assert!(result.is_none());
        } else {
            assert_eq!(result.unwrap(), frame);
        }
    }
}

// Typed requests.

#[test]
fn produce_from_frame() {
    let frame = Frame {
        magic: MAGIC_BYTE,
        api_key: ApiKey::Produce,
        correlation_id: 1,
        topic: "logs".to_string(),
        partition: 0,
        payload: b"event data".to_vec(),
    };
    let req = Request::from_frame(frame).unwrap();
    match req {
        Request::Produce(p) => {
            assert_eq!(p.topic, "logs");
            assert_eq!(p.payload, b"event data".to_vec());
        }
        _ => panic!("expected ProduceRequest"),
    }
}

#[test]
fn fetch_from_frame() {
    let mut offset_bytes = Vec::with_capacity(12);
    offset_bytes.extend_from_slice(&12345u64.to_be_bytes());
    offset_bytes.extend_from_slice(&1024u32.to_be_bytes());
    let frame = Frame {
        magic: MAGIC_BYTE,
        api_key: ApiKey::Fetch,
        correlation_id: 2,
        topic: "events".to_string(),
        partition: 3,
        payload: offset_bytes,
    };
    let req = Request::from_frame(frame).unwrap();
    match req {
        Request::Fetch(f) => {
            assert_eq!(f.offset, 12345);
            assert_eq!(f.max_bytes, 1024);
            assert_eq!(f.topic, "events");
            assert_eq!(f.partition, 3);
        }
        _ => panic!("expected FetchRequest"),
    }
}

#[test]
fn fetch_too_short_payload() {
    let frame = Frame {
        magic: MAGIC_BYTE,
        api_key: ApiKey::Fetch,
        correlation_id: 3,
        topic: "t".to_string(),
        partition: 0,
        payload: b"shortness".to_vec(),
    };
    let result = Request::from_frame(frame);
    assert!(result.is_err());
}

#[test]
fn produce_round_trip_through_frame() {
    let req = ProduceRequest {
        correlation_id: 10,
        topic: "my-topic".to_string(),
        partition: 2,
        payload: b"hello".to_vec(),
    };
    let frame = req.clone().into_frame();
    let req2 = Request::from_frame(frame).unwrap();
    assert_eq!(Request::Produce(req), req2);
}

#[test]
fn fetch_round_trip_through_frame() {
    let req = FetchRequest {
        correlation_id: 20,
        topic: "my-topic".to_string(),
        partition: 1,
        offset: 99999,
        max_bytes: 4096,
    };
    let frame = req.clone().into_frame();
    let req2 = Request::from_frame(frame).unwrap();
    assert_eq!(Request::Fetch(req), req2);
}

#[test]
fn produce_request_full_round_trip() {
    let req = ProduceRequest {
        correlation_id: 100,
        topic: "user-events".to_string(),
        partition: 2,
        payload: b"user signed up".to_vec(),
    };

    let frame = req.clone().into_frame();
    let mut buf = Vec::new();
    frame.encode(&mut buf);

    let decoded_frame = Frame::decode(&mut buf).unwrap().unwrap();
    let decoded_req = Request::from_frame(decoded_frame).unwrap();

    assert_eq!(Request::Produce(req), decoded_req);
}

#[test]
fn fetch_request_full_round_trip() {
    let req = FetchRequest {
        correlation_id: 200,
        topic: "page-views".to_string(),
        partition: 0,
        offset: 999_999,
        max_bytes: 4096,
    };

    let frame = req.clone().into_frame();
    let mut buf = Vec::new();
    frame.encode(&mut buf);

    let decoded_frame = Frame::decode(&mut buf).unwrap().unwrap();
    let decoded_req = Request::from_frame(decoded_frame).unwrap();

    assert_eq!(Request::Fetch(req), decoded_req);
}

#[test]
fn fetch_rejects_error_request_frame() {
    let frame = Frame {
        magic: MAGIC_BYTE,
        api_key: ApiKey::Error,
        correlation_id: 1,
        topic: String::new(),
        partition: 0,
        payload: Vec::new(),
    };

    let result = Request::from_frame(frame);
    assert!(
        result.is_err(),
        "Error frames should not be accepted as requests"
    );
}

#[test]
fn produce_batch_request_round_trip_through_frame() {
    let req = ProduceBatchRequest {
        correlation_id: 31,
        topic: "batched".to_string(),
        partition: 4,
        payloads: vec![b"one".to_vec(), Vec::new(), b"three".to_vec()],
    };
    let frame = req.clone().into_frame();
    // A count, then each payload with its 4-byte length.
    assert_eq!(&frame.payload[0..4], &[0, 0, 0, 3]);
    assert_eq!(&frame.payload[4..8], &[0, 0, 0, 3]);
    assert_eq!(frame.payload.len(), 4 + (4 + 3) + 4 + (4 + 5));
    let req2 = Request::from_frame(frame).unwrap();
    assert_eq!(Request::ProduceBatch(req), req2);
}

#[test]
fn produce_batch_rejects_trailing_bytes() {
    let mut payload = Vec::new();
    payload.extend_from_slice(&1u32.to_be_bytes());
    payload.extend_from_slice(&2u32.to_be_bytes());
    payload.extend_from_slice(b"ab");
    payload.push(0xEE);
    let frame = Frame {
        magic: MAGIC_BYTE,
        api_key: ApiKey::ProduceBatch,
        correlation_id: 5,
        topic: "t".to_string(),
        partition: 0,
        payload,
    };
    match Request::from_frame(frame) {
        Err(RukaError::InvalidFrame(m)) => assert_eq!(m, "trailing bytes in batch payload"),
        other => panic!("expected trailing-bytes error, got {:?}", other),
    }
}

#[test]
fn fetch_too_short_payload_reports_sizes() {
    let frame = Frame {
        magic: MAGIC_BYTE,
        api_key: ApiKey::Fetch,
        correlation_id: 3,
        topic: "t".to_string(),
        partition: 0,
        payload: b"shortness".to_vec(),
    };
    match Request::from_frame(frame) {
        Err(e) => {
            assert!(matches!(e, RukaError::FrameTooShort { needed: 12, have: 9 }));
            assert_eq!(e.to_string(), "frame too short: need 12 bytes, have 9");
        }
        Ok(r) => panic!("expected an error, got {:?}", r),
    }
}

// Typed responses.

#[test]
fn produce_response_round_trip() {
    let resp = ProduceResponse {
        correlation_id: 42,
        topic: "test".to_string(),
        partition: 0,
        offset: 1000,
    };
    let frame = resp.into_frame();
    assert_eq!(frame.correlation_id, 42);
    assert_eq!(frame.api_key, ApiKey::Produce);
    assert_eq!(frame.payload.len(), 8);
    let offset = u64::from_be_bytes(frame.payload[..8].try_into().unwrap());
    assert_eq!(offset, 1000);
}

#[test]
fn fetch_response_preserves_payload() {
    let data = b"some fetched data".to_vec();
    let resp = FetchResponse {
        correlation_id: 7,
        topic: "logs".to_string(),
        partition: 1,
        payload: data.clone(),
    };
    let frame = resp.into_frame();
    assert_eq!(frame.payload, data);
    assert_eq!(frame.api_key, ApiKey::Fetch);
}

#[test]
fn produce_response_round_trip_through_wire() {
    let resp = ProduceResponse {
        correlation_id: 42,
        topic: "orders".to_string(),
        partition: 0,
        offset: 12345,
    };

    let frame = resp.into_frame();
    let mut buf = Vec::new();
    frame.encode(&mut buf);

    let decoded = Frame::decode(&mut buf).unwrap().unwrap();
    assert_eq!(decoded.correlation_id, 42);
    assert_eq!(decoded.topic, "orders");

    let offset = u64::from_be_bytes(decoded.payload[..8].try_into().unwrap());
    assert_eq!(offset, 12345);
}

#[test]
fn fetch_response_round_trip_through_wire() {
    let resp = FetchResponse {
        correlation_id: 77,
        topic: "logs".to_string(),
        partition: 1,
        payload: b"fetched log entry data".to_vec(),
    };

    let frame = resp.clone().into_frame();
    let mut buf = Vec::new();
    frame.encode(&mut buf);

    let decoded = Frame::decode(&mut buf).unwrap().unwrap();
    assert_eq!(decoded.correlation_id, 77);
    assert_eq!(decoded.payload, b"fetched log entry data".to_vec());
}

#[test]
fn produce_batch_response_carries_base_offset() {
    let resp = ProduceBatchResponse {
        correlation_id: 9,
        topic: "b".to_string(),
        partition: 2,
        base_offset: 0x0102030405060708,
    };
    let frame = Response::ProduceBatch(resp).into_frame();
    assert_eq!(frame.api_key, ApiKey::ProduceBatch);
    assert_eq!(frame.topic, "b");
    assert_eq!(frame.partition, 2);
    assert_eq!(frame.payload, vec![1, 2, 3, 4, 5, 6, 7, 8]);
}

#[test]
fn error_response_round_trip() {
    let err_resp = ErrorResponse {
        correlation_id: 42,
        error_code: ErrorCode::OffsetNotFound,
        error_message: "offset 99 not found".to_string(),
    };

    let frame = Response::Error(err_resp).into_frame();
    let mut buf = Vec::new();
    frame.encode(&mut buf);

    let decoded = Frame::decode(&mut buf).unwrap().unwrap();
    assert_eq!(decoded.api_key, ApiKey::Error);
    assert_eq!(decoded.correlation_id, 42);
    assert_eq!(decoded.topic, "");

    let expected_code = ErrorCode::OffsetNotFound.as_u16();
    let actual_code = u16::from_be_bytes([decoded.payload[0], decoded.payload[1]]);
    assert_eq!(actual_code, expected_code);
}

#[test]
fn error_response_payload_is_code_then_message() {
    let frame = ErrorResponse::from_error(3, ErrorCode::StorageError, "disk".to_string())
        .into_frame();
    assert_eq!(frame.api_key, ApiKey::Error);
    assert_eq!(frame.correlation_id, 3);
    assert_eq!(frame.payload, vec![0, 5, b'd', b'i', b's', b'k']);
}

#[test]
fn fetch_response_multi_record_decode() {
    let record0 = Record {
        offset: 0,
        timestamp_ms: 1000,
        key: None,
        value: Some(b"msg-0".to_vec()),
    };
    let record1 = Record {
        offset: 1,
        timestamp_ms: 2000,
        key: None,
        value: Some(b"msg-1".to_vec()),
    };

    let mut payload_buf = Vec::new();
    payload_buf.extend_from_slice(&2u32.to_be_bytes());
    record0.encode(&mut payload_buf);
    record1.encode(&mut payload_buf);

    let frame = Frame {
        magic: MAGIC_BYTE,
        api_key: ApiKey::Fetch,
        correlation_id: 55,
        topic: "t".to_string(),
        partition: 0,
        payload: payload_buf,
    };

    let mut buf = Vec::new();
    frame.encode(&mut buf);

    let decoded = Frame::decode(&mut buf).unwrap().unwrap();
    assert_eq!(decoded.api_key, ApiKey::Fetch);

    let num_records = u32::from_be_bytes(decoded.payload[0..4].try_into().unwrap());
    assert_eq!(num_records, 2);
    let mut payload = decoded.payload[4..].to_vec();

    let dec0 = Record::decode(&mut payload).unwrap().unwrap();
    assert_eq!(dec0.offset, 0);
    assert_eq!(dec0.timestamp_ms, 1000);
    assert_eq!(dec0.key, None);
    assert_eq!(dec0.value, Some(b"msg-0".to_vec()));

    let dec1 = Record::decode(&mut payload).unwrap().unwrap();
    assert_eq!(dec1.offset, 1);
    assert_eq!(dec1.timestamp_ms, 2000);
    assert_eq!(dec1.key, None);
    assert_eq!(dec1.value, Some(b"msg-1".to_vec()));
}

// Protocol types.

#[test]
fn api_key_codes_round_trip() {
    for (key, code) in [
        (ApiKey::Produce, 1u16),
        (ApiKey::Fetch, 2),
        (ApiKey::ProduceBatch, 3),
        (ApiKey::Error, 4),
    ] {
        assert_eq!(key.as_u16(), code);
        assert_eq!(ApiKey::try_from(code).unwrap(), key);
    }
    assert!(matches!(ApiKey::try_from(5), Err(RukaError::UnknownApiKey(5))));
    assert_eq!(ApiKey::ProduceBatch.to_string(), "PRODUCE_BATCH");
    assert_eq!(ApiKey::Error.to_string(), "ERROR");
}

#[test]
fn error_codes_round_trip() {
    for code in 0u16..8 {
        assert_eq!(ErrorCode::from(code).as_u16(), code);
    }
    assert_eq!(ErrorCode::from(99), ErrorCode::ServerError);
    assert_eq!(ErrorCode::from_error(&RukaError::MessageTooLarge), ErrorCode::MessageTooLarge);
    assert_eq!(
        ErrorCode::from_error(&RukaError::OffsetNotFound(3)),
        ErrorCode::OffsetNotFound
    );
}

#[test]
fn codec_decodes_encoded_frame_and_leaves_following_bytes() {
    let mut codec = RukaCodec::new();
    let frame = Frame {
        magic: MAGIC_BYTE,
        api_key: ApiKey::Produce,
        correlation_id: 9,
        topic: "t".to_string(),
        partition: 1,
        payload: vec![5, 6, 7],
    };
    let mut buf = Vec::new();
    codec.encode(frame.clone(), &mut buf).unwrap();
    buf.extend_from_slice(&[0, 0]);
    assert_eq!(codec.decode(&mut buf).unwrap(), Some(frame));
    assert_eq!(buf, vec![0, 0]);
}
