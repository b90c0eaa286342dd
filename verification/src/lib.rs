//! Verified core of an MCAP reader/writer: record encoding and decoding,
//! chunk buffering, the file writer state machine, rolling-file decisions
//! and ROS1 message decoding.

pub mod error;
pub mod format;
pub mod kv;
pub mod types;
pub mod encode;
pub mod decode;
pub mod crc;
pub mod chunk;
pub mod sink;
pub mod streams;
pub mod summary;
pub mod writer;
pub mod rolling;
pub mod text;
pub mod ros1;
pub mod stream;
pub mod typed;
pub mod message_stream;
pub mod message_filter;
pub mod parsed;
pub mod record_stream;
pub mod round_trip;
pub mod read_back;
