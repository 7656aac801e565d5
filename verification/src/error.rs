//! The broker's error type.
use vstd::prelude::*;
use crate::text::{decimal, hex_byte, lemma_encode_concat, push_decimal, push_hex_byte, push_str, text_from_bytes};
use vstd::utf8::encode_utf8;

verus! {

/// Unified error type for the broker.
#[derive(Debug)]
pub enum RukaError {
    /// The frame's magic byte was not `MAGIC_BYTE`.
    InvalidMagicByte(u8),
    /// The frame's contents are malformed.
    InvalidFrame(String),
    /// The frame names an API key this broker does not know.
    UnknownApiKey(u16),
    /// The frame is shorter than its own fields require.
    FrameTooShort { needed: usize, have: usize },
    /// The topic name is not UTF-8, is empty where one is needed, or is longer than 255 bytes.
    InvalidTopicName,
    /// A single message cannot fit in a segment.
    MessageTooLarge,
    /// The frame's declared length exceeds the maximum frame size.
    FrameTooLarge { max: usize, got: usize },
    /// The active segment has no room for the record.
    SegmentFull { current: u64, max: u64 },
    /// No segment holds the offset.
    OffsetNotFound(u64),
    /// An index file whose length is not a whole number of entries.
    CorruptedIndex(u64),
    /// The topic partition was never created.
    PartitionNotFound { topic: String, partition: u32 },
    /// An operating-system I/O failure, with its message.
    Io(String),
    /// The peer closed the connection.
    ConnectionReset,
    /// Writing to the peer failed.
    WriteFailed(String),
}

/// The message of an error, as it is displayed.
pub open spec fn message(e: RukaError) -> Seq<char> {
    match e {
        RukaError::InvalidMagicByte(b) => "invalid magic byte: expected 0xCA, got 0x"@ + hex_byte(b),
        RukaError::InvalidFrame(m) => "invalid frame: "@ + m@,
        RukaError::UnknownApiKey(k) => "unknown API key: "@ + decimal(k as nat),
        RukaError::FrameTooShort { needed, have } => "frame too short: need "@ + decimal(
            needed as nat,
        ) + " bytes, have "@ + decimal(have as nat),
        RukaError::InvalidTopicName => "Topic name is invalid (not UTF-8 or exceeds max length)"@,
        RukaError::MessageTooLarge => "Message is too large to fit in a segment"@,
        RukaError::FrameTooLarge { max, got } => "frame exceeds maximum size of "@ + decimal(
            max as nat,
        ) + " bytes (got "@ + decimal(got as nat) + ")"@,
        RukaError::SegmentFull { current, max } => "segment is full (current: "@ + decimal(
            current as nat,
        ) + " bytes, max: "@ + decimal(max as nat) + " bytes)"@,
        RukaError::OffsetNotFound(o) => "offset "@ + decimal(o as nat) + " not found in any segment"@,
        RukaError::CorruptedIndex(p) => "corrupted index entry at position "@ + decimal(p as nat),
        RukaError::PartitionNotFound { topic, partition } => "partition "@ + topic@ + "/"@
            + decimal(partition as nat) + " does not exist"@,
        RukaError::Io(m) => "I/O error: "@ + m@,
        RukaError::ConnectionReset => "connection reset by peer"@,
        RukaError::WriteFailed(m) => "write failed: "@ + m@,
    }
}

impl RukaError {
    /// The error's message, as it is displayed.
    pub fn to_string(&self) -> (r: String)
        ensures
            r@ == message(*self),
    {
        let mut b: Vec<u8> = Vec::new();
        match self {
            RukaError::InvalidMagicByte(x) => {
                push_str(&mut b, "invalid magic byte: expected 0xCA, got 0x");
                push_hex_byte(&mut b, *x);
                proof {
                    lemma_encode_concat("invalid magic byte: expected 0xCA, got 0x"@, hex_byte(*x));
                }
            },
            RukaError::InvalidFrame(m) => {
                push_str(&mut b, "invalid frame: ");
                push_str(&mut b, m.as_str());
                proof {
                    lemma_encode_concat("invalid frame: "@, m@);
                }
            },
            RukaError::UnknownApiKey(k) => {
                push_str(&mut b, "unknown API key: ");
                push_decimal(&mut b, *k as u64);
                proof {
                    lemma_encode_concat("unknown API key: "@, decimal(*k as nat));
                }
            },
            RukaError::FrameTooShort { needed, have } => {
                push_str(&mut b, "frame too short: need ");
                push_decimal(&mut b, *needed as u64);
                push_str(&mut b, " bytes, have ");
                push_decimal(&mut b, *have as u64);
                proof {
                    let a = "frame too short: need "@;
                    let c = " bytes, have "@;
                    lemma_encode_concat(a, decimal(*needed as nat));
                    lemma_encode_concat(a + decimal(*needed as nat), c);
                    lemma_encode_concat(a + decimal(*needed as nat) + c, decimal(*have as nat));
                }
            },
            RukaError::InvalidTopicName => {
                push_str(&mut b, "Topic name is invalid (not UTF-8 or exceeds max length)");
            },
            RukaError::MessageTooLarge => {
                push_str(&mut b, "Message is too large to fit in a segment");
            },
            RukaError::FrameTooLarge { max, got } => {
                push_str(&mut b, "frame exceeds maximum size of ");
                push_decimal(&mut b, *max as u64);
                push_str(&mut b, " bytes (got ");
                push_decimal(&mut b, *got as u64);
                push_str(&mut b, ")");
                proof {
                    let a = "frame exceeds maximum size of "@;
                    let c = " bytes (got "@;
                    lemma_encode_concat(a, decimal(*max as nat));
                    lemma_encode_concat(a + decimal(*max as nat), c);
                    lemma_encode_concat(a + decimal(*max as nat) + c, decimal(*got as nat));
                    lemma_encode_concat(a + decimal(*max as nat) + c + decimal(*got as nat), ")"@);
                }
            },
            RukaError::SegmentFull { current, max } => {
                push_str(&mut b, "segment is full (current: ");
                push_decimal(&mut b, *current);
                push_str(&mut b, " bytes, max: ");
                push_decimal(&mut b, *max);
                push_str(&mut b, " bytes)");
                proof {
                    let a = "segment is full (current: "@;
                    let c = " bytes, max: "@;
                    lemma_encode_concat(a, decimal(*current as nat));
                    lemma_encode_concat(a + decimal(*current as nat), c);
                    lemma_encode_concat(a + decimal(*current as nat) + c, decimal(*max as nat));
                    lemma_encode_concat(
                        a + decimal(*current as nat) + c + decimal(*max as nat),
                        " bytes)"@,
                    );
                }
            },
            RukaError::OffsetNotFound(o) => {
                push_str(&mut b, "offset ");
                push_decimal(&mut b, *o);
                push_str(&mut b, " not found in any segment");
                proof {
                    lemma_encode_concat("offset "@, decimal(*o as nat));
                    lemma_encode_concat("offset "@ + decimal(*o as nat), " not found in any segment"@);
                }
            },
            RukaError::CorruptedIndex(p) => {
                push_str(&mut b, "corrupted index entry at position ");
                push_decimal(&mut b, *p);
                proof {
                    lemma_encode_concat("corrupted index entry at position "@, decimal(*p as nat));
                }
            },
            RukaError::PartitionNotFound { topic, partition } => {
                push_str(&mut b, "partition ");
                push_str(&mut b, topic.as_str());
                push_str(&mut b, "/");
                push_decimal(&mut b, *partition as u64);
                push_str(&mut b, " does not exist");
                proof {
                    let a = "partition "@;
                    lemma_encode_concat(a, topic@);
                    lemma_encode_concat(a + topic@, "/"@);
                    lemma_encode_concat(a + topic@ + "/"@, decimal(*partition as nat));
                    lemma_encode_concat(
                        a + topic@ + "/"@ + decimal(*partition as nat),
                        " does not exist"@,
                    );
                }
            },
            RukaError::Io(m) => {
                push_str(&mut b, "I/O error: ");
                push_str(&mut b, m.as_str());
                proof {
                    lemma_encode_concat("I/O error: "@, m@);
                }
            },
            RukaError::ConnectionReset => {
                push_str(&mut b, "connection reset by peer");
            },
            RukaError::WriteFailed(m) => {
                push_str(&mut b, "write failed: ");
                push_str(&mut b, m.as_str());
                proof {
                    lemma_encode_concat("write failed: "@, m@);
                }
            },
        }
        proof {
            assert(b@ =~= encode_utf8(message(*self)));
        }
        text_from_bytes(b, Ghost(message(*self)))
    }
}

} // verus!
