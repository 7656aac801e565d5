//! Binary wire protocol for client-broker communication.
//!
//! Every frame is `[TotalLength: 4B][MagicByte: 1B][ApiKey: 2B][CorrelationId: 4B]
//! [TopicLength: 2B][TopicName: VarB][Partition: 4B][PayloadLength: 4B][Payload: VarB]`,
//! all integers big-endian.
pub mod types;
pub mod frame;
pub mod request;
pub mod response;
pub mod codec;
