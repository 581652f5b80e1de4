//! Encoding and decoding of name-resolution messages in their binary wire
//! format: header, question and answer records, with compressed names
//! resolved against the whole message.
use vstd::prelude::*;

pub mod header;
pub mod message;
pub mod name;
pub mod parse_utils;
pub mod question;
pub mod record;
pub mod tags;
pub mod validation;
pub mod wire;

pub use header::{Header, Opcode, ResponseCode};
pub use message::Message;
pub use name::CtrlByte;
pub use question::Question;
pub use record::{RData, Record};
pub use tags::{QClass, QType};
pub use wire::{Buffer, CodecError, DeSerialize, Serialize};

verus! {

} // verus!
