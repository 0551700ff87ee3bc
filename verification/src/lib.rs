//! A verified variable-length integer (VarInt) codec: the atomic encoding
//! primitive of a wire protocol. A signed 64-bit value is carried as 1 to 5
//! bytes of 7 data bits each, least-significant group first, with the high
//! bit of every byte but the last set as a continuation flag.

pub mod codec;
pub mod var_int;

pub use codec::ByteSink;
pub use codec::ByteSource;
pub use codec::Codec;
pub use codec::DecodeError;
pub use codec::EncodeError;
pub use codec::SliceSource;
pub use codec::VecSink;
pub use var_int::VarInt;
