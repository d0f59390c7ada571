//! A codec for the RESP wire protocol: a typed value tree, an encoder from
//! values to bytes and a recursive-descent decoder from bytes to values,
//! with a small command dispatcher on top.
pub mod value;
pub mod decimal;
pub mod encode;
pub mod decode;
pub mod round_trip;
pub mod command;

pub use value::{Value, ValueModel};
pub use decode::{decode, decode_prefix, DecodeError};
pub use command::{Command, Step, parse_command, dispatch, respond};


