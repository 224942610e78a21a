//! Framing and transport protocol for controlling a device over a serial link.
//!
//! Values are serialized into a fixed little-endian layout, followed by a
//! CRC-32/CKSUM of those bytes, and the whole is COBS-encoded and terminated
//! by a single zero byte.

pub mod bytes;
pub mod checksum;
pub mod cobs;
pub mod protocol;
pub mod codec;
pub mod device;
pub mod transport;
pub mod menu;

pub use codec::{deserialize_crc_cobs, serialize_crc_cobs, DeserError, SerializationError};
pub use protocol::{Command, DevId, Id, Message, Parameter, Response};
