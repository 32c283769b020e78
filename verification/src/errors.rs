//! The closed error taxonomy of the ingestion core, and its mapping onto
//! protocol error codes used when resetting a stream toward the peer.

use vstd::prelude::*;

verus! {

/// A peer violated the general protocol rules (transport failure or a
/// stream that ended inside a frame).
pub const GENERAL_PROTOCOL_ERROR: u64 = 0x101;

/// A frame that is structurally valid but not allowed in this context.
pub const FRAME_UNEXPECTED: u64 = 0x105;

/// Any other malformed frame.
pub const FRAME_ERROR: u64 = 0x106;

/// A settings frame that failed its own validation.
pub const SETTINGS_ERROR: u64 = 0x109;

/// Why a frame could not be decoded.  Unknown types are not an error (they
/// are skipped) and too-few-bytes is not an error (more input is awaited),
/// so only these three kinds remain.
#[derive(Debug, PartialEq, Eq, Structural)]
pub enum FrameError {
    /// Structurally valid, but the type is disallowed at this layer.
    UnsupportedFrame(u64),
    /// A settings frame whose body is not a sequence of id/value pairs.
    Settings,
    /// Any other field validation failure.
    Malformed,
}

/// A terminal failure of one ingestion stream.
#[derive(Debug)]
pub enum Error {
    /// The frame boundary decoder rejected the input.
    Proto(FrameError),
    /// The transport reported a read failure; its description is carried
    /// through opaquely.
    Transport(String),
    /// The stream ended cleanly but a partial frame or an undrained payload
    /// was still outstanding.
    UnexpectedEnd,
}

/// A protocol error code as sent to the peer in a stream reset.
#[derive(Debug, Clone, Copy, PartialEq, Eq, Structural)]
pub struct ErrorCode(pub u64);

/// The code each error kind maps to; the table `Error::code` implements.
pub open spec fn code_spec(e: Error) -> u64 {
    match e {
        Error::Transport(_) => GENERAL_PROTOCOL_ERROR,
        Error::Proto(FrameError::Settings) => SETTINGS_ERROR,
        Error::Proto(FrameError::UnsupportedFrame(_)) => FRAME_UNEXPECTED,
        Error::Proto(_) => FRAME_ERROR,
        Error::UnexpectedEnd => GENERAL_PROTOCOL_ERROR,
    }
}

impl Error {
    /// The protocol error code to reset the stream with.
    pub fn code(&self) -> (r: ErrorCode)
        ensures
            r.0 == code_spec(*self),
    {
        match self {
            Error::Transport(_) => ErrorCode(GENERAL_PROTOCOL_ERROR),
            Error::Proto(FrameError::Settings) => ErrorCode(SETTINGS_ERROR),
            Error::Proto(FrameError::UnsupportedFrame(_)) => ErrorCode(FRAME_UNEXPECTED),
            Error::Proto(_) => ErrorCode(FRAME_ERROR),
            Error::UnexpectedEnd => ErrorCode(GENERAL_PROTOCOL_ERROR),
        }
    }
}

impl From<FrameError> for Error {
    fn from(e: FrameError) -> (r: Error) {
        Error::Proto(e)
    }
}

impl vstd::std_specs::convert::FromSpecImpl<FrameError> for Error {
    open spec fn obeys_from_spec() -> bool {
        true
    }

    open spec fn from_spec(e: FrameError) -> Error {
        Error::Proto(e)
    }
}

} // verus!
