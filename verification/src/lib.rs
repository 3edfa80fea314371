//! Non-blocking, incremental framing of segmented messages over a byte
//! transport.
//!
//! The crate never performs I/O itself. A caller asks a [`MessageStream`] what
//! it needs next, performs the read or the write on its transport, and hands
//! the outcome back; every decision in between is made, and proved, here.

pub mod buf;
pub mod error;
pub mod frame;
pub mod le;
pub mod message;
pub mod reading;
pub mod stream;
pub mod table;
pub mod write;

pub use crate::buf::{Buf, MutBuf, ReadOutcome};
pub use crate::error::Error;
pub use crate::message::{OutboundMessage, ReaderOptions, Segments};
pub use crate::stream::{MessageStream, Progress};
pub use crate::write::WriteOutcome;
