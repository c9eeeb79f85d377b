use vstd::prelude::*;

verus! {

/// Errors that can occur in the pub/sub system.
#[derive(Debug)]
pub enum PubSubError {
    InvalidSubject { reason: String },
    Protocol(String),
    UnsupportedVersion { version: u8 },
    FrameTooLarge { size: usize, max: usize },
    Transport(std::io::Error),
    Codec(String),
    ConnectionClosed,
    Timeout,
    Backpressure { sid: u64 },
}

/// `std::io::Error`, carried opaquely by the transport variant.
#[verifier::external_type_specification]
#[verifier::external_body]
pub struct ExIoError(std::io::Error);

} // verus!
