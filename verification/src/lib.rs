//! A length-tolerant decoder for Apple's LZVN compression format, the codec of
//! HFS+/APFS transparent compression (`decmpfs` types 7 and 8) and of the
//! `bvxn` blocks inside an LZFSE stream.
//!
//! Decoding stops at the end-of-stream opcode (`0x06`) and ignores whatever
//! follows it, so a `decmpfs` resource-fork block can be passed verbatim.
//! Malformed input gives a typed [`Error`]; the decoder never reads or writes
//! out of bounds.
//!
//! - `spec`: the model of the format that the contracts speak of;
//! - `decoder`: [`decode_into`] and [`decode`], proved against it;
//! - `laws`: properties of decoding as a whole;
//! - `opcode_laws`: what each opcode family reads, copies and from how far back;
//! - `error`: [`Error`] and its message.
pub mod error;
pub mod laws;
pub mod spec;

mod decoder;

pub use decoder::{decode, decode_into};
pub use error::{Error, Result};
pub mod opcode_laws;
