//! A verified codec for the RESP wire format: typed frames, a byte-exact
//! encoder, and an incremental decoder that reports how many bytes one
//! complete frame consumed.

pub mod model;
pub mod frame;
pub mod scan;
pub mod encode;
pub mod order;
pub mod decode;
pub mod laws;

pub use model::FrameV;
pub use encode::RespEncode;
pub use decode::{decode, DecodeOutcome, MalformedKind, RespDecode};
pub use frame::{RespFrame, SimpleString, SimpleError, BulkString, BulkError, Double, Array, RespNull, RespNullArray, RespNullBulkString, RespMap, RespSet, FrameError};
