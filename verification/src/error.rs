//! The ways in which reading or writing a message can fail.

use vstd::prelude::*;

verus! {

/// Why a read or a write did not complete.
///
/// Only [`Error::WouldBlock`] leaves the stream usable: it asks the caller to
/// come back when the transport is ready, and nothing that was buffered or
/// written so far is lost. After any other error the stream is to be
/// discarded.
#[derive(Debug, Clone, Copy, PartialEq, Eq, Structural)]
pub enum Error {
    /// The transport is not ready; try again later.
    WouldBlock,
    /// The transport ended before a message was complete.
    UnexpectedEof,
    /// The transport accepted no bytes although some were offered.
    WriteZero,
    /// A segment table announced this many segments: none, or too many.
    DecodeInvalidSegmentCount(u32),
    /// A message of this many words exceeds what the stream is willing to
    /// read.
    DecodeMessageTooLarge(u64),
    /// The transport failed in some other way.
    TransportIo,
}

impl Error {
    /// Whether the caller may try again with the same stream.
    pub open spec fn recoverable(self) -> bool {
        self == Error::WouldBlock
    }

    /// Whether the caller may try again with the same stream.
    pub fn is_recoverable(&self) -> (recoverable: bool)
        ensures
            recoverable == self.recoverable(),
    {
        match self {
            Error::WouldBlock => true,
            _ => false,
        }
    }

    /// The words of [`Error::description`], by kind.
    pub open spec fn description_text(self) -> Seq<char> {
        match self {
            Error::WouldBlock => "operation would block"@,
            Error::UnexpectedEof => "failed to fill whole buffer"@,
            Error::WriteZero => "failed to write whole message"@,
            Error::DecodeInvalidSegmentCount(count) => if count == 0 {
                "0 segments in message"@
            } else {
                "too many segments in message"@
            },
            Error::DecodeMessageTooLarge(_) => "message is too large"@,
            Error::TransportIo => "transport error"@,
        }
    }

    /// A short description of the error, without the number it may carry.
    pub fn description(&self) -> (text: &'static str)
        ensures
            text@ == self.description_text(),
    {
        match self {
            Error::WouldBlock => "operation would block",
            Error::UnexpectedEof => "failed to fill whole buffer",
            Error::WriteZero => "failed to write whole message",
            Error::DecodeInvalidSegmentCount(count) => if *count == 0 {
                "0 segments in message"
            } else {
                "too many segments in message"
            },
            Error::DecodeMessageTooLarge(_) => "message is too large",
            Error::TransportIo => "transport error",
        }
    }
}

} // verus!
