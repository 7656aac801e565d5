//! Core protocol constants and enums.
use vstd::prelude::*;
use crate::error::RukaError;

verus! {

broadcast use vstd::string::to_string_from_display_ensures_for_str;

/// Magic byte that prefixes every valid frame body.
pub const MAGIC_BYTE: u8 = 0xCA;

/// Maximum allowed frame body size (16 MiB).
pub const MAX_FRAME_SIZE: usize = 16777216;

/// Size of the fixed fields of a frame body:
/// magic(1) + api key(2) + correlation id(4) + topic length(2) + partition(4) + payload length(4).
pub const MIN_HEADER_SIZE: usize = 17;

/// API operation keys.
#[derive(Debug, Clone, Copy, PartialEq, Eq, Structural)]
pub enum ApiKey {
    /// Append a message to a topic partition.
    Produce,
    /// Read messages from a topic partition at a given offset.
    Fetch,
    /// Append a batch of messages to a topic partition.
    ProduceBatch,
    /// An error answer from the broker.
    Error,
}

impl ApiKey {
    /// The wire value of the key.
    pub open spec fn code(self) -> u16 {
        match self {
            ApiKey::Produce => 1,
            ApiKey::Fetch => 2,
            ApiKey::ProduceBatch => 3,
            ApiKey::Error => 4,
        }
    }

    /// The key whose wire value is `value`, if there is one.
    pub open spec fn from_code(value: u16) -> Option<ApiKey> {
        if value == 1 {
            Some(ApiKey::Produce)
        } else if value == 2 {
            Some(ApiKey::Fetch)
        } else if value == 3 {
            Some(ApiKey::ProduceBatch)
        } else if value == 4 {
            Some(ApiKey::Error)
        } else {
            None
        }
    }

    /// The raw `u16` value.
    pub fn as_u16(self) -> (r: u16)
        ensures
            r == self.code(),
    {
        match self {
            ApiKey::Produce => 1,
            ApiKey::Fetch => 2,
            ApiKey::ProduceBatch => 3,
            ApiKey::Error => 4,
        }
    }

    /// Parse a wire value; unknown values are `UnknownApiKey`.
    pub fn try_from(value: u16) -> (r: Result<ApiKey, RukaError>)
        ensures
            match ApiKey::from_code(value) {
                Some(k) => r matches Ok(k2) && k2 == k,
                None => r matches Err(RukaError::UnknownApiKey(v)) && v == value,
            },
    {
        match value {
            1 => Ok(ApiKey::Produce),
            2 => Ok(ApiKey::Fetch),
            3 => Ok(ApiKey::ProduceBatch),
            4 => Ok(ApiKey::Error),
            _ => Err(RukaError::UnknownApiKey(value)),
        }
    }

    /// The key's name as printed in logs.
    pub fn to_string(&self) -> (r: String)
        ensures
            r@ == (match *self {
                ApiKey::Produce => "PRODUCE"@,
                ApiKey::Fetch => "FETCH"@,
                ApiKey::ProduceBatch => "PRODUCE_BATCH"@,
                ApiKey::Error => "ERROR"@,
            }),
    {
        match self {
            ApiKey::Produce => "PRODUCE".to_string(),
            ApiKey::Fetch => "FETCH".to_string(),
            ApiKey::ProduceBatch => "PRODUCE_BATCH".to_string(),
            ApiKey::Error => "ERROR".to_string(),
        }
    }
}

/// Every key survives the trip through its wire value.
pub proof fn law_api_key_code_round_trip(k: ApiKey)
    ensures
        ApiKey::from_code(k.code()) == Some(k),
{
}

/// Error codes sent from the broker to the client.
#[derive(Debug, Clone, Copy, PartialEq, Eq, Structural)]
pub enum ErrorCode {
    NoError,
    UnknownApiKey,
    InvalidFrame,
    OffsetNotFound,
    PartitionNotFound,
    StorageError,
    MessageTooLarge,
    ServerError,
}

impl ErrorCode {
    /// The wire value of the code.
    pub open spec fn code(self) -> u16 {
        match self {
            ErrorCode::NoError => 0,
            ErrorCode::UnknownApiKey => 1,
            ErrorCode::InvalidFrame => 2,
            ErrorCode::OffsetNotFound => 3,
            ErrorCode::PartitionNotFound => 4,
            ErrorCode::StorageError => 5,
            ErrorCode::MessageTooLarge => 6,
            ErrorCode::ServerError => 7,
        }
    }

    /// The code for a wire value; values past the known ones are `ServerError`.
    pub open spec fn from_code(value: u16) -> ErrorCode {
        if value == 0 {
            ErrorCode::NoError
        } else if value == 1 {
            ErrorCode::UnknownApiKey
        } else if value == 2 {
            ErrorCode::InvalidFrame
        } else if value == 3 {
            ErrorCode::OffsetNotFound
        } else if value == 4 {
            ErrorCode::PartitionNotFound
        } else if value == 5 {
            ErrorCode::StorageError
        } else if value == 6 {
            ErrorCode::MessageTooLarge
        } else {
            ErrorCode::ServerError
        }
    }

    /// The category of a broker error.
    pub open spec fn of_error(e: &RukaError) -> ErrorCode {
        match *e {
            RukaError::UnknownApiKey(_) => ErrorCode::UnknownApiKey,
            RukaError::InvalidFrame(_) => ErrorCode::InvalidFrame,
            RukaError::InvalidMagicByte(_) => ErrorCode::InvalidFrame,
            RukaError::FrameTooShort { .. } => ErrorCode::InvalidFrame,
            RukaError::FrameTooLarge { .. } => ErrorCode::MessageTooLarge,
            RukaError::MessageTooLarge => ErrorCode::MessageTooLarge,
            RukaError::InvalidTopicName => ErrorCode::InvalidFrame,
            RukaError::OffsetNotFound(_) => ErrorCode::OffsetNotFound,
            RukaError::PartitionNotFound { .. } => ErrorCode::PartitionNotFound,
            RukaError::SegmentFull { .. } => ErrorCode::StorageError,
            RukaError::CorruptedIndex(_) => ErrorCode::StorageError,
            RukaError::Io(_) => ErrorCode::StorageError,
            _ => ErrorCode::ServerError,
        }
    }

    /// The raw `u16` value.
    pub fn as_u16(self) -> (r: u16)
        ensures
            r == self.code(),
    {
        match self {
            ErrorCode::NoError => 0,
            ErrorCode::UnknownApiKey => 1,
            ErrorCode::InvalidFrame => 2,
            ErrorCode::OffsetNotFound => 3,
            ErrorCode::PartitionNotFound => 4,
            ErrorCode::StorageError => 5,
            ErrorCode::MessageTooLarge => 6,
            ErrorCode::ServerError => 7,
        }
    }

    /// The category of a broker error, as sent to clients.
    pub fn from_error(e: &RukaError) -> (r: ErrorCode)
        ensures
            r == ErrorCode::of_error(e),
    {
        match e {
            RukaError::UnknownApiKey(_) => ErrorCode::UnknownApiKey,
            RukaError::InvalidFrame(_) => ErrorCode::InvalidFrame,
            RukaError::InvalidMagicByte(_) => ErrorCode::InvalidFrame,
            RukaError::FrameTooShort { .. } => ErrorCode::InvalidFrame,
            RukaError::FrameTooLarge { .. } => ErrorCode::MessageTooLarge,
            RukaError::MessageTooLarge => ErrorCode::MessageTooLarge,
            RukaError::InvalidTopicName => ErrorCode::InvalidFrame,
            RukaError::OffsetNotFound(_) => ErrorCode::OffsetNotFound,
            RukaError::PartitionNotFound { .. } => ErrorCode::PartitionNotFound,
            RukaError::SegmentFull { .. } => ErrorCode::StorageError,
            RukaError::CorruptedIndex(_) => ErrorCode::StorageError,
            RukaError::Io(_) => ErrorCode::StorageError,
            _ => ErrorCode::ServerError,
        }
    }
}

impl From<u16> for ErrorCode {
    fn from(value: u16) -> (r: ErrorCode) {
        match value {
            0 => ErrorCode::NoError,
            1 => ErrorCode::UnknownApiKey,
            2 => ErrorCode::InvalidFrame,
            3 => ErrorCode::OffsetNotFound,
            4 => ErrorCode::PartitionNotFound,
            5 => ErrorCode::StorageError,
            6 => ErrorCode::MessageTooLarge,
            _ => ErrorCode::ServerError,
        }
    }
}

impl vstd::std_specs::convert::FromSpecImpl<u16> for ErrorCode {
    open spec fn obeys_from_spec() -> bool {
        true
    }

    open spec fn from_spec(value: u16) -> ErrorCode {
        ErrorCode::from_code(value)
    }
}

/// Every code survives the trip through its wire value.
pub proof fn law_error_code_round_trip(c: ErrorCode)
    ensures
        ErrorCode::from_code(c.code()) == c,
{
}

} // verus!
