use vstd::prelude::*;

verus! {

/// What went wrong while reading bencoded bytes.
#[derive(Debug, Clone, Copy, PartialEq, Eq, Structural)]
pub enum ParseError {
    /// A string length without its `:`, or an integer without its closing `e`.
    InvalidFormat,
    /// `ie`: an integer with no digits.
    EmptyInteger,
    /// An integer with a leading zero, `-0`, or one out of the 64-bit range.
    InvalidInteger,
    /// A string that declares more bytes than the input holds.
    StringLength { want: u64, got: u64 },
    /// No value can start at this offset of the input.
    InvalidContent(usize),
    /// A list without its closing `e`.
    ListEnd,
    /// A dictionary without its closing `e`.
    DictEnd,
    /// A dictionary key that is not a byte string.
    DictKey,
}

/// The errors of the library.
#[derive(Debug, PartialEq)]
pub enum Error {
    /// Bytes that are not bencode.
    BencodeParseError(ParseError),
    /// A bencoded value that is not a KRPC message: a missing or mistyped field.
    InvalidKRPC,
    /// A key that is not 20 bytes long; it holds the bytes given.
    InvalidKey(Vec<u8>),
    /// A value without an encoding: a dictionary whose keys do not strictly ascend.
    InvalidValue,
    /// An address that is not `a.b.c.d:port`; it holds the text given.
    InvalidNetAddr(String),
}

pub type Result<T> = core::result::Result<T, Error>;

} // verus!
