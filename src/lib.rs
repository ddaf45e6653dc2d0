//! A small telemetry record, its length-delimited protobuf wire format, and
//! the framing used to store and replay a stream of such records.
pub mod varint;
pub mod record;
pub mod wire;
pub mod codec;
pub mod round_trip;
