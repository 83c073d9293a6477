//! A codec for DNS messages over a fixed 512-byte buffer.
//!
//! [`buffer::PacketBuffer`] is the byte cursor: bounds-checked reads and writes of bytes,
//! of big-endian integers and of domain names. [`protocol`] holds the message model:
//! header, question, resource record and packet, each of which reads itself from a
//! buffer and writes itself to one.
//!
//! The contracts speak of the wire format as mathematics. [`wire`] has the byte
//! sequences and what an encoder lays down, [`name`] the labels of a name and the walk
//! along its pointers, [`text`] the text of a label. [`laws`] proves what holds between
//! writing and reading.

use vstd::prelude::*;

pub mod buffer;
pub mod laws;
pub mod name;
pub mod protocol;
pub mod text;
pub mod wire;

verus! {

/// What a codec operation returns.
pub type Result<T> = core::result::Result<T, DnsError>;

/// The ways in which decoding or encoding a message fails.
#[derive(Debug, Clone, Copy, PartialEq, Eq)]
pub enum DnsError {
    /// An access at or past the end of the 512-byte buffer.
    BufferEnd,
    /// A name whose chain of compression pointers is longer than the limit carried here.
    MaxJumps(u32),
    /// A label of a name that is too long to be written.
    LabelExceedsMaxLengthSize,
}

} // verus!
