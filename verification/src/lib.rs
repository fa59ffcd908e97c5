//! An in-memory key-value store speaking the RESP wire protocol.
//!
//! The crate provides the protocol codec — a value model for the full RESP
//! type set, an incremental decoder over byte input, and an encoder back to
//! wire bytes — together with the expiring key-value store the protocol
//! manipulates. Network I/O lives outside; the codec works on plain bytes.

pub mod command;
pub mod data_type;
pub mod decode;
pub mod encode;
pub mod error;
pub mod laws;
pub mod reader;
pub mod store;
pub mod utf8;
pub mod validate;
pub mod value;
pub mod wire;

pub use command::{Command, CommandParseError};
pub use data_type::RespDataType;
pub use error::RespReaderError;
pub use reader::RespReader;
pub use store::{Database, DatabaseSlot, DatabaseValue};
pub use value::{RespValue, ValModel};
