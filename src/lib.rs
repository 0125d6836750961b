//! An append-only record broker: the wire codec, the partition log's record format,
//! recovery and fetch, and the broker's responses.
pub mod broker;
pub mod protocol;
pub mod storage;
pub mod wire;
