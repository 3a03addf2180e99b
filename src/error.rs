use vstd::prelude::*;

verus! {

/// Every way in which decoding, building or reading a packet can fail.
#[derive(Debug, Clone, PartialEq, Eq)]
pub enum TelemError {
    /// The declared field count exceeds the maximum; holds the count asked for.
    InvalidNumberOfFields(usize),
    /// A field index past the end of the packet; holds the index and the packet's length in bytes.
    InvalidFieldId(usize, usize),
    MissingBOP,
    MissingEOP,
    /// The frame is shorter than the smallest packet; holds its length.
    MissingBytes(usize),
    /// The declared field count disagrees with the packet's length.
    LengthError,
    /// A compact-string field holds a value beyond the encodable range.
    Base40Decode,
    /// A string that cannot be written as a compact string.
    Base40Encode,
    /// The stored checksum disagrees with the computed one.
    CrcError,
    /// The frame's byte stuffing is malformed.
    CobsError,
    /// The schema file could not be parsed; holds the parser's message.
    CfgParse(String),
    /// The schema file could not be read; holds the reader's message.
    CfgRead(String),
    /// No schema has the requested packet type id.
    PkgTypeNotFound(usize),
    /// The bound schema has no field of the requested name.
    FieldNotFound(String),
}

} // verus!
