//! The error kinds shared by every codec.

use vstd::prelude::*;

verus! {

/// `std::io::Error`, carried through untouched from the datagram channel.
#[verifier::external_type_specification]
#[verifier::external_body]
pub struct ExIoError(std::io::Error);

/// Everything that can go wrong while encoding, decoding or exchanging a
/// packet.
#[derive(Debug)]
pub enum Errors {
    /// A read was attempted at or past the end of the buffer.
    BufferEnd,
    /// A write, seek or range access would leave the buffer.
    BufferOverflow,
    /// The datagram channel failed to send or receive.
    IOErr(std::io::Error),
    /// A label to be encoded is longer than 63 bytes.
    InvalidLabelLen,
    /// Name decompression followed more pointers than allowed.
    JumpCycle,
    /// A byte range was requested with its start after its end.
    RangeErr,
}

pub type Result<T> = std::result::Result<T, Errors>;

/// Text of an I/O error, as `Display` for `std::io::Error` renders it.
/// Nothing is claimed of the text: it depends on the platform.
#[verifier::external_body]
fn io_error_text(e: &std::io::Error) -> (text: String) {
    format!("{}", e)
}

impl Errors {
    /// The message shown for this error.
    pub fn message(&self) -> (text: String)
        ensures
            self is BufferEnd ==> text@ == "buffer end reached"@,
            self is BufferOverflow ==> text@ == "buffer overflow"@,
            self is InvalidLabelLen ==> text@ == "label exceeds 63 characters"@,
            self is RangeErr ==> text@ == "invalid range"@,
            self is JumpCycle ==> text@ == "max number of jumps exceeded"@,
    {
        match self {
            Errors::BufferEnd => "buffer end reached".to_owned(),
            Errors::BufferOverflow => "buffer overflow".to_owned(),
            Errors::IOErr(e) => io_error_text(e),
            Errors::InvalidLabelLen => "label exceeds 63 characters".to_owned(),
            Errors::RangeErr => "invalid range".to_owned(),
            Errors::JumpCycle => "max number of jumps exceeded".to_owned(),
        }
    }
}

} // verus!
