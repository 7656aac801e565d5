//! Storage: the index, segments, partitions, and reloading them.

use ruka::config::SyncLevel;
use ruka::error::RukaError;
use ruka::storage::index::{Index, IndexEntry, INDEX_ENTRY_SIZE};
use ruka::storage::partition::Partition;
use ruka::storage::segment::{Record, Segment};

/// The bytes of an index file holding the segment's index entries.
fn index_file_bytes(seg: &Segment) -> Vec<u8> {
    let mut out = Vec::new();
    for e in seg.index().entries() {
        out.extend_from_slice(&e.encode());
    }
    out
}

/// A segment rebuilt from copies of the bytes of its two files.
fn reload_segment(seg: &Segment) -> Segment {
    let index = Index::load(&index_file_bytes(seg));
    Segment::load(
        seg.base_offset(),
        seg.max_bytes(),
        seg.sync_level(),
        seg.log_bytes().to_vec(),
        index,
    )
}

/// A partition rebuilt from copies of its segments' files.
fn reload_partition(p: &Partition, max: u64, sync: SyncLevel) -> Partition {
    let segments: Vec<Segment> = p.segments().iter().map(reload_segment).collect();
    Partition::open_or_create(p.topic.clone(), p.id, max, sync, segments)
}

// The index.

#[test]
fn entry_round_trip() {
    let entry = IndexEntry {
        offset: 42,
        position: 1024,
    };
    let encoded = entry.encode();
    assert_eq!(encoded.len(), INDEX_ENTRY_SIZE);

    let decoded = IndexEntry::decode(&encoded);
    assert_eq!(entry, decoded);
}

#[test]
fn entry_byte_layout_is_16_bytes_big_endian() {
    let entry = IndexEntry {
        offset: 0x0102030405060708,
        position: 0x090A0B0C0D0E0F10,
    };
    let buf = entry.encode();
    assert_eq!(
        buf,
        [
            0x01, 0x02, 0x03, 0x04, 0x05, 0x06, 0x07, 0x08, // offset BE
            0x09, 0x0A, 0x0B, 0x0C, 0x0D, 0x0E, 0x0F, 0x10, // position BE
        ]
    );
}

#[test]
fn create_append_lookup() {
    let mut index = Index::create();
    index.append(0, 0);
    index.append(1, 100);
    index.append(2, 250);

    assert_eq!(index.lookup(0), Some(0));
    assert_eq!(index.lookup(1), Some(100));
    assert_eq!(index.lookup(2), Some(250));
    assert_eq!(index.lookup(3), None);
    assert_eq!(index.entry_count(), 3);
}

#[test]
fn lookup_nonexistent_returns_none() {
    let index = Index::create();
    assert_eq!(index.lookup(0), None);
    assert_eq!(index.lookup(999), None);
}

#[test]
fn lookup_floor() {
    let mut index = Index::create();
    index.append(0, 0);
    index.append(10, 500);
    index.append(20, 1200);

    let e = index.lookup_floor(10).unwrap();
    assert_eq!(e.offset, 10);
    assert_eq!(e.position, 500);

    let e = index.lookup_floor(7).unwrap();
    assert_eq!(e.offset, 0);

    let e = index.lookup_floor(15).unwrap();
    assert_eq!(e.offset, 10);

    assert!(index.lookup_floor(0).is_some());
}

#[test]
fn save_and_reload() {
    let mut index = Index::create();
    for i in 0..100 {
        index.append(i, i * 64);
    }
    let mut bytes = Vec::new();
    for e in index.entries() {
        bytes.extend_from_slice(&e.encode());
    }

    let index = Index::load(&bytes).unwrap();
    assert_eq!(index.entry_count(), 100);

    for i in 0..100 {
        assert_eq!(index.lookup(i), Some(i * 64));
    }
}

#[test]
fn file_size_is_exact() {
    let mut index = Index::create();
    for i in 0..50 {
        index.append(i, i * 100);
    }
    let mut bytes = Vec::new();
    for e in index.entries() {
        bytes.extend_from_slice(&e.encode());
    }
    let file_size = bytes.len() as u64;
    assert_eq!(file_size, 50 * INDEX_ENTRY_SIZE as u64);
}

#[test]
fn index_load_rejects_partial_entry() {
    let result = Index::load(&[0xFF; 7]);
    assert!(matches!(result, Err(RukaError::CorruptedIndex(7))));
    assert_eq!(
        result.err().unwrap().to_string(),
        "corrupted index entry at position 7"
    );
}

#[test]
fn lookup_floor_below_first_entry_is_none() {
    let mut index = Index::create();
    index.append(5, 0);
    index.append(9, 40);
    assert!(index.lookup_floor(4).is_none());
    assert_eq!(index.lookup_floor(100).unwrap().offset, 9);
}

#[test]
fn lookup_finds_first_entry_when_out_of_order() {
    let mut index = Index::create();
    index.append(3, 30);
    index.append(1, 10);
    index.append(3, 99);
    assert_eq!(index.lookup(1), Some(10));
    assert_eq!(index.lookup(3), Some(30));
}

// Segments.

#[test]
fn segment_create_append_read() {
    let mut segment = Segment::create(100, 1024 * 1024, SyncLevel::LogAndIndex);

    let val1 = b"value1".to_vec();
    let val2 = b"value2".to_vec();

    let offset1 = segment.append(None, Some(val1.clone())).unwrap();
    assert_eq!(offset1, 100);

    let offset2 = segment
        .append(Some(b"key2".to_vec()), Some(val2.clone()))
        .unwrap();
    assert_eq!(offset2, 101);

    let rec1 = segment.read_at(100).unwrap().unwrap();
    assert_eq!(rec1.offset, 100);
    assert_eq!(rec1.value, Some(val1));

    let rec2 = segment.read_at(101).unwrap().unwrap();
    assert_eq!(rec2.offset, 101);
    assert_eq!(rec2.key, Some(b"key2".to_vec()));
    assert_eq!(rec2.value, Some(val2));

    assert!(segment.read_at(102).unwrap().is_none());
}

#[test]
fn segment_reload() {
    let mut segment = Segment::create(0, 1024, SyncLevel::LogAndIndex);
    segment.append(None, Some(b"hello".to_vec())).unwrap();
    segment.append(None, Some(b"world".to_vec())).unwrap();

    let segment2 = reload_segment(&segment);
    assert_eq!(segment2.next_offset(), 2);

    let rec = segment2.read_at(1).unwrap().unwrap();
    assert_eq!(rec.value, Some(b"world".to_vec()));
}

#[test]
fn empty_payload_is_not_none() {
    let mut seg = Segment::create(0, 1024, SyncLevel::NoSync);

    let offset = seg.append(None, Some(Vec::new())).unwrap();
    assert_eq!(offset, 0);

    let rec = seg.read_at(0).unwrap().expect("record must exist");
    assert_eq!(rec.offset, 0);
    assert_eq!(rec.value, Some(Vec::new()));
    assert!(rec.key.is_none());
}

#[test]
fn none_payload_round_trips() {
    let mut seg = Segment::create(0, 1024, SyncLevel::NoSync);

    let offset = seg.append(None, None).unwrap();
    assert_eq!(offset, 0);

    let rec = seg.read_at(0).unwrap().expect("record must exist");
    assert_eq!(rec.offset, 0);
    assert!(
        rec.value.is_none(),
        "value should be None, got {:?}",
        rec.value
    );
    assert!(rec.key.is_none());
}

#[test]
fn missing_index_rebuilds_from_log() {
    let mut seg = Segment::create(0, 1024 * 1024, SyncLevel::NoSync);
    for i in 0..5u64 {
        seg.append(None, Some(format!("val-{}", i).into_bytes()))
            .unwrap();
    }

    // The index file is gone: reading it failed.
    let missing = Err(RukaError::Io("No such file or directory".to_string()));
    let seg = Segment::load(0, 1024 * 1024, SyncLevel::NoSync, seg.log_bytes().to_vec(), missing);
    assert_eq!(seg.next_offset(), 5);

    for i in 0..5u64 {
        let rec = seg.read_at(i).unwrap().unwrap_or_else(|| {
            panic!(
                "record at offset {} must be readable after index rebuild",
                i
            )
        });
        assert_eq!(rec.offset, i);
        assert_eq!(rec.value, Some(format!("val-{}", i).into_bytes()));
    }
}

#[test]
fn corrupt_index_rebuilds_or_recovers() {
    let mut seg = Segment::create(0, 1024 * 1024, SyncLevel::NoSync);
    for i in 0..5u64 {
        seg.append(None, Some(format!("val-{}", i).into_bytes()))
            .unwrap();
    }

    // 7 garbage bytes: not a whole number of entries.
    let corrupt = Index::load(&[0xFF; 7]);
    let seg = Segment::load(0, 1024 * 1024, SyncLevel::NoSync, seg.log_bytes().to_vec(), corrupt);
    assert_eq!(seg.next_offset(), 5);

    for i in 0..5u64 {
        let rec = seg.read_at(i).unwrap().unwrap_or_else(|| {
            panic!(
                "record at offset {} must be readable after corrupt-index recovery",
                i
            )
        });
        assert_eq!(rec.offset, i);
        assert_eq!(rec.value, Some(format!("val-{}", i).into_bytes()));
    }
}

#[test]
fn partial_trailing_record_is_truncated() {
    let mut seg = Segment::create(0, 1024 * 1024, SyncLevel::NoSync);
    for i in 0..3u64 {
        seg.append(None, Some(format!("rec-{}", i).into_bytes()))
            .unwrap();
    }

    // A length prefix claiming 80 bytes, with no data after it.
    let mut log = seg.log_bytes().to_vec();
    let whole_len = log.len();
    log.extend_from_slice(&[0x00, 0x00, 0x00, 0x50]);

    let index = Index::load(&index_file_bytes(&seg));
    let seg = Segment::load(0, 1024 * 1024, SyncLevel::NoSync, log, index);
    assert_eq!(
        seg.next_offset(),
        3,
        "next_offset should be 3 (partial record truncated)"
    );
    assert_eq!(seg.log_bytes().len(), whole_len);

    for i in 0..3u64 {
        let rec = seg
            .read_at(i)
            .unwrap()
            .unwrap_or_else(|| panic!("record at offset {} must survive truncation", i));
        assert_eq!(rec.offset, i);
        assert_eq!(rec.value, Some(format!("rec-{}", i).into_bytes()));
    }

    assert!(seg.read_at(3).unwrap().is_none());
}

#[test]
fn single_message_larger_than_segment_is_rejected() {
    let mut seg = Segment::create(0, 100, SyncLevel::NoSync);

    let big_value = vec![0xAB; 200];
    let result = seg.append(None, Some(big_value));

    assert!(
        result.is_err(),
        "appending a message larger than max_bytes should fail"
    );

    let err = result.unwrap_err();
    let err_msg = err.to_string();
    assert!(
        err_msg.contains("too large") || err_msg.contains("full"),
        "error should indicate MessageTooLarge or SegmentFull, got: {}",
        err_msg
    );
}

#[test]
fn segment_full_reports_sizes() {
    let mut seg = Segment::create(0, 100, SyncLevel::NoSync);
    seg.append(None, Some(vec![1; 40])).unwrap();
    match seg.append(None, Some(vec![2; 40])) {
        Err(e) => {
            assert!(matches!(e, RukaError::SegmentFull { current: 68, max: 100 }));
            assert_eq!(
                e.to_string(),
                "segment is full (current: 68 bytes, max: 100 bytes)"
            );
        }
        Ok(o) => panic!("expected the segment to be full, got offset {}", o),
    }
    // A failed append changes nothing.
    assert_eq!(seg.next_offset(), 1);
    assert_eq!(seg.log_bytes().len(), 68);
}

#[test]
fn segment_is_full_at_its_limit() {
    let mut seg = Segment::create(0, 56, SyncLevel::NoSync);
    assert!(!seg.is_full());
    seg.append(None, None).unwrap();
    assert!(!seg.is_full());
    seg.append(None, None).unwrap();
    assert!(seg.is_full());
    assert_eq!(seg.max_bytes(), 56);
    assert_eq!(seg.sync_level(), SyncLevel::NoSync);
}

#[test]
fn record_log_layout() {
    let mut seg = Segment::create(7, 1024, SyncLevel::NoSync);
    seg.append(Some(b"k".to_vec()), None).unwrap();
    let log = seg.log_bytes();
    // Length 29, offset 7, 8 timestamp bytes, key length 1, 'k', absent value.
    assert_eq!(&log[0..4], &[0, 0, 0, 29]);
    assert_eq!(&log[4..12], &7u64.to_be_bytes());
    assert_eq!(&log[20..24], &[0, 0, 0, 1]);
    assert_eq!(log[24], b'k');
    assert_eq!(&log[25..29], &[0xFF, 0xFF, 0xFF, 0xFF]);
    assert_eq!(log.len(), 29);
    assert_eq!(seg.index().entries(), &[IndexEntry { offset: 7, position: 0 }]);
}

#[test]
fn record_decode_incomplete_and_too_small() {
    let rec = Record {
        offset: 1,
        timestamp_ms: 2,
        key: None,
        value: Some(b"abc".to_vec()),
    };
    let mut full = Vec::new();
    rec.encode(&mut full);
    let mut part = full[..full.len() - 1].to_vec();
    assert!(Record::decode(&mut part).unwrap().is_none());
    assert_eq!(part.len(), full.len() - 1);

    let mut small = vec![0, 0, 0, 10, 1, 2, 3, 4];
    match Record::decode(&mut small) {
        Err(RukaError::InvalidFrame(m)) => assert_eq!(m, "Record length too small"),
        other => panic!("expected a too-small error, got {:?}", other),
    }
}

#[test]
fn record_decode_key_past_its_end_is_not_decoded() {
    // A record length of 28 whose key claims 5 bytes where only 4 follow.
    let mut src = vec![0u8, 0, 0, 28];
    src.extend_from_slice(&[0u8; 16]);
    src.extend_from_slice(&[0, 0, 0, 5]);
    src.extend_from_slice(&[0, 0, 0, 0]);
    let before = src.clone();
    assert!(Record::decode(&mut src).unwrap().is_none());
    assert_eq!(src, before);
}

#[test]
fn segment_append_batch_takes_what_fits() {
    let mut seg = Segment::create(10, 100, SyncLevel::NoSync);
    let payloads = vec![vec![1u8; 10], vec![2u8; 10], vec![3u8; 10]];
    // Each record is 38 bytes: two fit in 100.
    let (first, count) = seg.append_batch(&payloads).unwrap();
    assert_eq!((first, count), (10, 2));
    assert_eq!(seg.next_offset(), 12);
    match seg.append_batch(&payloads[2..]) {
        Err(RukaError::SegmentFull { current: 76, max: 100 }) => {}
        other => panic!("expected a full segment, got {:?}", other),
    }
    assert!(matches!(
        seg.append_batch(&[vec![0u8; 80]]),
        Err(RukaError::MessageTooLarge)
    ));
    assert_eq!(seg.append_batch(&[]).unwrap(), (12, 0));
}

#[test]
fn segment_read_batch_respects_budget() {
    let mut seg = Segment::create(0, 4096, SyncLevel::NoSync);
    for i in 0..5u8 {
        seg.append(None, Some(vec![i; 12])).unwrap();
    }
    // Each record counts 40 bytes: a budget of 100 keeps two.
    let recs = seg.read_batch(1, 100).unwrap();
    assert_eq!(recs.iter().map(|r| r.offset).collect::<Vec<_>>(), vec![1, 2]);
    // The first record is kept whatever its length.
    let recs = seg.read_batch(3, 1).unwrap();
    assert_eq!(recs.len(), 1);
    assert_eq!(recs[0].offset, 3);
    assert!(seg.read_batch(5, 100).unwrap().is_empty());
}

// Partitions.

#[test]
fn partition_append_and_read() {
    let mut partition = Partition::open_or_create(
        "topicA".to_string(),
        0,
        1024 * 1024,
        SyncLevel::LogAndIndex,
        Vec::new(),
    );

    let val1 = b"data1".to_vec();
    let offset = partition.append(None, Some(val1.clone())).unwrap();
    assert_eq!(offset, 0);

    let rec = partition.read(0).unwrap().unwrap();
    assert_eq!(rec.value, Some(val1));
}

#[test]
fn partition_segment_rotation() {
    let mut partition = Partition::open_or_create(
        "topicB".to_string(),
        0,
        100,
        SyncLevel::LogAndIndex,
        Vec::new(),
    );

    let val = vec![0u8; 40];
    for _ in 0..10 {
        partition.append(None, Some(val.clone())).unwrap();
    }

    assert!(partition.segment_count() > 1, "Should have rotated segments");

    for i in 0..10 {
        let rec = partition.read(i).unwrap().unwrap();
        assert_eq!(rec.offset, i);
    }
}

#[test]
fn partition_reload() {
    let mut partition = Partition::open_or_create(
        "topicC".to_string(),
        0,
        1024,
        SyncLevel::LogAndIndex,
        Vec::new(),
    );
    partition.append(None, Some(b"test".to_vec())).unwrap();

    let partition2 = reload_partition(&partition, 1024, SyncLevel::LogAndIndex);
    let rec = partition2.read(0).unwrap().unwrap();
    assert_eq!(rec.value, Some(b"test".to_vec()));
}

#[test]
fn batch_splits_across_segments() {
    let max_segment_bytes: u64 = 200;

    let mut partition = Partition::open_or_create(
        "test_topic".to_string(),
        0,
        max_segment_bytes,
        SyncLevel::NoSync,
        Vec::new(),
    );

    let payloads: Vec<Vec<u8>> = (0..10)
        .map(|i| format!("payload-{:020}", i).into_bytes())
        .collect();

    let base_offset = partition.append_batch(payloads.clone()).unwrap();
    assert_eq!(base_offset, 0);

    let log_count = partition.segment_count();
    assert!(
        log_count > 1,
        "Expected multiple segments, but found {} .log files",
        log_count
    );

    for (i, payload) in payloads.iter().enumerate() {
        let rec = partition
            .read(i as u64)
            .unwrap()
            .unwrap_or_else(|| panic!("record at offset {} must exist", i));
        assert_eq!(rec.offset, i as u64);
        assert_eq!(rec.value.as_ref(), Some(payload));
    }
}

#[test]
fn partition_segments_stay_within_limit() {
    let mut partition =
        Partition::open_or_create("t".to_string(), 1, 150, SyncLevel::NoSync, Vec::new());
    for i in 0..20u8 {
        partition.append(None, Some(vec![i; 30])).unwrap();
    }
    partition
        .append_batch((0..7u8).map(|i| vec![i; 50]).collect())
        .unwrap();
    for seg in partition.segments() {
        assert!(seg.log_bytes().len() as u64 <= 150);
    }
    // Each segment starts where the one before ended.
    let segs = partition.segments();
    for w in segs.windows(2) {
        assert_eq!(w[1].base_offset(), w[0].next_offset());
    }
    assert_eq!(partition.next_offset(), 27);
}

#[test]
fn partition_batch_too_large_keeps_earlier_rounds() {
    let mut partition =
        Partition::open_or_create("t".to_string(), 0, 100, SyncLevel::NoSync, Vec::new());
    // Two fit in the first segment, then the oversized one fails the round.
    let payloads = vec![vec![1u8; 10], vec![2u8; 10], vec![3u8; 10], vec![4u8; 90]];
    let result = partition.append_batch(payloads);
    assert!(matches!(result, Err(RukaError::MessageTooLarge)));
    assert_eq!(partition.next_offset(), 2);
    assert_eq!(partition.read(1).unwrap().unwrap().value, Some(vec![2u8; 10]));
    assert!(partition.read(2).unwrap().is_none());
}

#[test]
fn partition_empty_batch_gives_next_offset() {
    let mut partition =
        Partition::open_or_create("t".to_string(), 0, 1000, SyncLevel::NoSync, Vec::new());
    partition.append(None, Some(b"a".to_vec())).unwrap();
    assert_eq!(partition.append_batch(Vec::new()).unwrap(), 1);
    assert_eq!(partition.segment_count(), 1);
}

#[test]
fn partition_read_batch_crosses_segments() {
    let mut partition =
        Partition::open_or_create("t".to_string(), 0, 100, SyncLevel::NoSync, Vec::new());
    for i in 0..6u8 {
        partition.append(None, Some(vec![i; 20])).unwrap();
    }
    assert_eq!(partition.segment_count(), 3);
    // Each record counts 48 bytes against the budget.
    let recs = partition.read_batch(1, 1000).unwrap();
    assert_eq!(recs.iter().map(|r| r.offset).collect::<Vec<_>>(), vec![1, 2, 3, 4, 5]);
    let recs = partition.read_batch(0, 100).unwrap();
    assert_eq!(recs.iter().map(|r| r.offset).collect::<Vec<_>>(), vec![0, 1]);
    let recs = partition.read_batch(2, 10).unwrap();
    assert_eq!(recs.iter().map(|r| r.offset).collect::<Vec<_>>(), vec![2]);
    assert!(partition.read_batch(6, 1000).unwrap().is_empty());
}

#[test]
fn partition_fetch_goes_on_at_next_segment_base() {
    // A (40 bytes) and B (60 bytes) fill the first segment; C (28 bytes)
    // starts the second.
    let mut partition =
        Partition::open_or_create("t".to_string(), 0, 100, SyncLevel::NoSync, Vec::new());
    partition.append(None, Some(vec![1u8; 12])).unwrap();
    partition.append(None, Some(vec![2u8; 32])).unwrap();
    partition.append(None, None).unwrap();
    assert_eq!(partition.segment_count(), 2);
    // The first segment stops its batch before B; with 30 bytes of budget
    // left, the fetch goes on with the next segment from its base.
    let recs = partition.read_batch(0, 70).unwrap();
    assert_eq!(recs.iter().map(|r| r.offset).collect::<Vec<_>>(), vec![0, 2]);
    // Offsets always increase.
    let recs = partition.read_batch(0, 1000).unwrap();
    assert_eq!(recs.iter().map(|r| r.offset).collect::<Vec<_>>(), vec![0, 1, 2]);
}

#[test]
fn partition_reassembles_segments_in_order() {
    let mut partition =
        Partition::open_or_create("t".to_string(), 3, 100, SyncLevel::NoSync, Vec::new());
    for i in 0..6u8 {
        partition.append(None, Some(vec![i; 20])).unwrap();
    }
    let mut segments: Vec<Segment> = partition.segments().iter().map(reload_segment).collect();
    segments.reverse();
    let reopened = Partition::open_or_create("t".to_string(), 3, 100, SyncLevel::NoSync, segments);
    let bases: Vec<u64> = reopened.segments().iter().map(|s| s.base_offset()).collect();
    assert_eq!(bases, vec![0, 2, 4]);
    assert_eq!(reopened.next_offset(), 6);
    for i in 0..6u64 {
        assert_eq!(reopened.read(i).unwrap().unwrap().value, Some(vec![i as u8; 20]));
    }
}

#[test]
fn partition_read_before_first_segment_is_none() {
    let seg = Segment::create(10, 1000, SyncLevel::NoSync);
    let partition = Partition::open_or_create("t".to_string(), 0, 1000, SyncLevel::NoSync, vec![seg]);
    assert!(partition.read(3).unwrap().is_none());
    assert!(partition.read_batch(3, 100).unwrap().is_empty());
    assert_eq!(partition.next_offset(), 10);
}

#[test]
fn segment_recovers_from_a_partly_written_record() {
    let mut seg = Segment::create(5, 4096, SyncLevel::NoSync);
    seg.append(Some(b"k".to_vec()), Some(b"first".to_vec())).unwrap();
    seg.append(None, Some(b"second".to_vec())).unwrap();
    let unfinished = Record {
        offset: 7,
        timestamp_ms: 1,
        key: None,
        value: Some(b"third".to_vec()),
    };
    let mut bytes = Vec::new();
    unfinished.encode(&mut bytes);
    for cut in [1usize, 4, 20, bytes.len() - 1] {
        let mut log = seg.log_bytes().to_vec();
        log.extend_from_slice(&bytes[..cut]);
        for index in [Index::load(&index_file_bytes(&seg)), Ok(Index::create())] {
            let back = Segment::load(5, 4096, SyncLevel::NoSync, log.clone(), index);
            assert_eq!(back.log_bytes(), seg.log_bytes());
            assert_eq!(back.next_offset(), 7);
            assert_eq!(back.index().entries(), seg.index().entries());
            let first = back.read_at(5).unwrap().unwrap();
            assert_eq!(first.key, Some(b"k".to_vec()));
            assert_eq!(first.value, Some(b"first".to_vec()));
            assert_eq!(back.read_at(6).unwrap().unwrap().value, Some(b"second".to_vec()));
            assert!(back.read_at(7).unwrap().is_none());
        }
    }
}

#[test]
fn partition_fetch_stays_within_budget() {
    let mut partition =
        Partition::open_or_create("t".to_string(), 0, 200, SyncLevel::NoSync, Vec::new());
    let sizes = [10usize, 50, 3, 70, 0, 25, 40];
    for (i, n) in sizes.iter().enumerate() {
        partition.append(None, Some(vec![i as u8; *n])).unwrap();
    }
    for start in 0..sizes.len() as u64 {
        for budget in [1u32, 30, 40, 80, 100, 150, 400] {
            let recs = partition.read_batch(start, budget).unwrap();
            let counted: u64 = recs
                .iter()
                .map(|r| 28 + r.value.as_ref().map_or(0, |v| v.len()) as u64)
                .sum();
            assert!(counted <= budget as u64 || recs.len() == 1);
            assert_eq!(recs[0].offset, start);
        }
    }
    // A lone first record is given whatever its length.
    let recs = partition.read_batch(3, 1).unwrap();
    assert_eq!(recs.len(), 1);
    assert_eq!(recs[0].value, Some(vec![3u8; 70]));
}

#[test]
fn partition_batch_follows_what_was_held() {
    let mut partition =
        Partition::open_or_create("t".to_string(), 0, 120, SyncLevel::NoSync, Vec::new());
    assert_eq!(partition.append(Some(b"key".to_vec()), Some(b"v".to_vec())).unwrap(), 0);
    let payloads: Vec<Vec<u8>> = (0..6u8).map(|i| vec![i; 20 + i as usize]).collect();
    assert_eq!(partition.append_batch(payloads.clone()).unwrap(), 1);
    assert_eq!(partition.next_offset(), 7);
    let first = partition.read(0).unwrap().unwrap();
    assert_eq!(first.key, Some(b"key".to_vec()));
    assert_eq!(first.value, Some(b"v".to_vec()));
    for (j, p) in payloads.iter().enumerate() {
        let rec = partition.read(1 + j as u64).unwrap().unwrap();
        assert_eq!(rec.offset, 1 + j as u64);
        assert_eq!(rec.key, None);
        assert_eq!(rec.value.as_ref(), Some(p));
    }
    assert!(partition.read(7).unwrap().is_none());
    assert!(partition.segment_count() > 1);
}
