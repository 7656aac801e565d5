//! Answers to requests, error messages, and the names of storage files.

use ruka::broker::handler::{
    encode_records, error_response, fetch_response, produce_batch_response, produce_response,
};
use ruka::config::{BrokerConfig, SyncLevel};
use ruka::error::RukaError;
use ruka::protocol::response::{ErrorResponse, FetchResponse, ProduceResponse, Response};
use ruka::protocol::types::ErrorCode;
use ruka::storage::naming::{
    index_file_name, log_file_name, parse_u32, parse_u64, segment_base_from_file_name,
    segment_file_stem,
};
use ruka::storage::partition::Partition;
use ruka::storage::segment::Record;

fn error_parts(r: Response) -> (u32, ErrorCode, String) {
    match r {
        Response::Error(ErrorResponse {
            correlation_id,
            error_code,
            error_message,
        }) => (correlation_id, error_code, error_message),
        other => panic!("expected an error response, got {:?}", other),
    }
}

// Error messages.

#[test]
fn error_messages_match_their_display() {
    let cases: Vec<(RukaError, &str)> = vec![
        (
            RukaError::InvalidMagicByte(0x0B),
            "invalid magic byte: expected 0xCA, got 0x0B",
        ),
        (RukaError::InvalidFrame("bad".to_string()), "invalid frame: bad"),
        (RukaError::UnknownApiKey(65535), "unknown API key: 65535"),
        (
            RukaError::FrameTooShort { needed: 12, have: 0 },
            "frame too short: need 12 bytes, have 0",
        ),
        (
            RukaError::InvalidTopicName,
            "Topic name is invalid (not UTF-8 or exceeds max length)",
        ),
        (
            RukaError::MessageTooLarge,
            "Message is too large to fit in a segment",
        ),
        (
            RukaError::FrameTooLarge { max: 16777216, got: 16777217 },
            "frame exceeds maximum size of 16777216 bytes (got 16777217)",
        ),
        (
            RukaError::SegmentFull { current: 0, max: 18446744073709551615 },
            "segment is full (current: 0 bytes, max: 18446744073709551615 bytes)",
        ),
        (
            RukaError::OffsetNotFound(99),
            "offset 99 not found in any segment",
        ),
        (
            RukaError::CorruptedIndex(160),
            "corrupted index entry at position 160",
        ),
        (
            RukaError::PartitionNotFound { topic: "orders".to_string(), partition: 7 },
            "partition orders/7 does not exist",
        ),
        (RukaError::Io("denied".to_string()), "I/O error: denied"),
        (RukaError::ConnectionReset, "connection reset by peer"),
        (RukaError::WriteFailed("pipe".to_string()), "write failed: pipe"),
    ];
    for (e, text) in cases {
        assert_eq!(e.to_string(), text);
    }
    assert_eq!(
        RukaError::InvalidMagicByte(0xFF).to_string(),
        "invalid magic byte: expected 0xCA, got 0xFF"
    );
    assert_eq!(
        RukaError::InvalidMagicByte(0).to_string(),
        "invalid magic byte: expected 0xCA, got 0x00"
    );
}

// Answers to requests.

#[test]
fn produce_answer_carries_offset() {
    let r = produce_response(5, "orders".to_string(), 2, Ok(41));
    assert_eq!(
        r,
        Response::Produce(ProduceResponse {
            correlation_id: 5,
            topic: "orders".to_string(),
            partition: 2,
            offset: 41,
        })
    );
}

#[test]
fn produce_failure_becomes_error_answer() {
    let r = produce_response(6, "orders".to_string(), 2, Err(RukaError::MessageTooLarge));
    let (cid, code, text) = error_parts(r);
    assert_eq!(cid, 6);
    assert_eq!(code, ErrorCode::MessageTooLarge);
    assert_eq!(text, "Message is too large to fit in a segment");
}

#[test]
fn produce_batch_answer_carries_base_offset() {
    match produce_batch_response(8, "b".to_string(), 0, Ok(100)) {
        Response::ProduceBatch(p) => {
            assert_eq!(p.correlation_id, 8);
            assert_eq!(p.base_offset, 100);
            assert_eq!(p.topic, "b");
        }
        other => panic!("expected a batch answer, got {:?}", other),
    }
    let (cid, code, _) = error_parts(produce_batch_response(
        9,
        "b".to_string(),
        0,
        Err(RukaError::Io("disk".to_string())),
    ));
    assert_eq!((cid, code), (9, ErrorCode::StorageError));
}

#[test]
fn fetch_with_no_records_is_offset_not_found() {
    let r = fetch_response(3, "logs".to_string(), 1, 77, Ok(Vec::new()));
    let (cid, code, text) = error_parts(r);
    assert_eq!(cid, 3);
    assert_eq!(code, ErrorCode::OffsetNotFound);
    assert_eq!(text, "offset 77 not found in any segment");
}

#[test]
fn fetch_answer_counts_and_encodes_records() {
    let recs = vec![
        Record { offset: 4, timestamp_ms: 9, key: None, value: Some(b"ab".to_vec()) },
        Record { offset: 5, timestamp_ms: 9, key: Some(b"k".to_vec()), value: None },
    ];
    let mut expected = vec![0, 0, 0, 2];
    for r in &recs {
        r.encode(&mut expected);
    }
    assert_eq!(encode_records(&recs), expected);
    match fetch_response(4, "logs".to_string(), 1, 4, Ok(recs)) {
        Response::Fetch(FetchResponse { correlation_id, topic, partition, payload }) => {
            assert_eq!(correlation_id, 4);
            assert_eq!(topic, "logs");
            assert_eq!(partition, 1);
            assert_eq!(payload, expected);
            assert_eq!(payload.len(), 4 + 30 + 29);
        }
        other => panic!("expected a fetch answer, got {:?}", other),
    }
}

#[test]
fn fetch_failure_becomes_error_answer() {
    let e = RukaError::PartitionNotFound { topic: "x".to_string(), partition: 0 };
    let (cid, code, text) = error_parts(fetch_response(1, "x".to_string(), 0, 0, Err(e)));
    assert_eq!(cid, 1);
    assert_eq!(code, ErrorCode::PartitionNotFound);
    assert_eq!(text, "partition x/0 does not exist");
}

#[test]
fn error_answer_for_unknown_key() {
    let (cid, code, text) = error_parts(error_response(12, RukaError::UnknownApiKey(9)));
    assert_eq!((cid, code), (12, ErrorCode::UnknownApiKey));
    assert_eq!(text, "unknown API key: 9");
}

#[test]
fn produce_then_fetch_through_a_partition() {
    let mut partition =
        Partition::open_or_create("demo".to_string(), 0, 1024, SyncLevel::NoSync, Vec::new());
    let answer = produce_response(1, "demo".to_string(), 0, partition.append(None, Some(b"Hello".to_vec())));
    assert!(matches!(answer, Response::Produce(ProduceResponse { offset: 0, .. })));
    let records = partition.read_batch(0, 4096).unwrap();
    match fetch_response(2, "demo".to_string(), 0, 0, Ok(records)) {
        Response::Fetch(f) => {
            assert_eq!(&f.payload[0..4], &[0, 0, 0, 1]);
            assert_eq!(&f.payload[f.payload.len() - 5..], b"Hello");
        }
        other => panic!("expected a fetch answer, got {:?}", other),
    }
}

// Configuration.

#[test]
fn config_defaults() {
    let c = BrokerConfig::default();
    assert_eq!(c.port, 9092);
    assert_eq!(c.data_dir, "./data");
    assert_eq!(SyncLevel::default(), SyncLevel::LogAndIndex);
    assert!(SyncLevel::Log.sync_log() && !SyncLevel::Log.sync_index());
    assert!(SyncLevel::LogAndIndex.sync_index());
    assert!(!SyncLevel::NoSync.sync_log());
}

// File names.

#[test]
fn segment_file_names_are_twenty_digits() {
    assert_eq!(segment_file_stem(0), "00000000000000000000");
    assert_eq!(segment_file_stem(37450), "00000000000000037450");
    assert_eq!(segment_file_stem(u64::MAX), "18446744073709551615");
    assert_eq!(log_file_name(3), "00000000000000000003.log");
    assert_eq!(index_file_name(3), "00000000000000000003.index");
}

#[test]
fn segment_base_read_back_from_log_file_names() {
    assert_eq!(segment_base_from_file_name("00000000000000037450.log"), Some(37450));
    assert_eq!(segment_base_from_file_name(&log_file_name(u64::MAX)), Some(u64::MAX));
    assert_eq!(segment_base_from_file_name("+5.log"), Some(5));
    assert_eq!(segment_base_from_file_name("7.index"), None);
    assert_eq!(segment_base_from_file_name(".log"), None);
    assert_eq!(segment_base_from_file_name("x1.log"), None);
    assert_eq!(segment_base_from_file_name("18446744073709551616.log"), None);
    assert_eq!(segment_base_from_file_name("1.log.log"), None);
}

#[test]
fn integers_parse_as_rust_parses_them() {
    assert_eq!(parse_u32("0"), Some(0));
    assert_eq!(parse_u32("+12"), Some(12));
    assert_eq!(parse_u32("4294967295"), Some(u32::MAX));
    assert_eq!(parse_u32("4294967296"), None);
    assert_eq!(parse_u32(""), None);
    assert_eq!(parse_u32("+"), None);
    assert_eq!(parse_u32("-1"), None);
    assert_eq!(parse_u32(" 1"), None);
    assert_eq!(parse_u64("18446744073709551615"), Some(u64::MAX));
    assert_eq!(parse_u64("018"), Some(18));
    for s in ["0", "+7", "99", "abc", "", "4294967296"] {
        assert_eq!(parse_u32(s), s.parse::<u32>().ok());
    }
}
