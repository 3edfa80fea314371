//! Messages as the stream hands them out and takes them in.

use crate::buf::Buf;
use crate::table::{views, well_formed};
use vstd::prelude::*;

verus! {

/// The traversal limit of a stream where no other is asked for, in words.
pub const DEFAULT_TRAVERSAL_LIMIT_IN_WORDS: u64 = 8388608;

/// How much a stream is willing to read.
#[derive(Clone, Copy, Debug)]
pub struct ReaderOptions {
    /// The largest message that is accepted, in 8-byte words, all segments
    /// together.
    pub traversal_limit_in_words: u64,
}

impl ReaderOptions {
    /// The default options.
    pub fn new() -> (options: ReaderOptions)
        ensures
            options.traversal_limit_in_words == DEFAULT_TRAVERSAL_LIMIT_IN_WORDS,
    {
        ReaderOptions { traversal_limit_in_words: DEFAULT_TRAVERSAL_LIMIT_IN_WORDS }
    }

    /// These options with the traversal limit set to `value` words.
    pub fn traversal_limit_in_words(self, value: u64) -> (options: ReaderOptions)
        ensures
            options.traversal_limit_in_words == value,
    {
        ReaderOptions { traversal_limit_in_words: value }
    }
}

/// The segments of a message that was read, in order.
pub struct Segments {
    segments: Vec<Buf>,
}

impl View for Segments {
    type V = Seq<Seq<u8>>;

    closed spec fn view(&self) -> Seq<Seq<u8>> {
        Seq::new(self.segments@.len(), |index: int| self.segments@[index]@)
    }
}

impl Segments {
    /// The message made of `segments`.
    pub fn new(segments: Vec<Buf>) -> (message: Segments)
        ensures
            message@.len() == segments@.len(),
            forall|index: int|
                0 <= index < segments@.len() ==> message@[index] == (#[trigger] segments@[index])@,
    {
        Segments { segments }
    }

    /// The number of segments.
    pub fn len(&self) -> (len: usize)
        ensures
            len == self@.len(),
    {
        self.segments.len()
    }

    /// The segment with the number `id`, if there is one.
    pub fn get_segment(&self, id: u32) -> (segment: Option<&[u8]>)
        ensures
            match segment {
                Some(bytes) => id < self@.len() && bytes@ == self@[id as int],
                None => id >= self@.len(),
            },
    {
        if (id as usize) < self.segments.len() {
            Some(self.segments[id as usize].as_slice())
        } else {
            None
        }
    }
}

/// A message to be written: at least one segment, each a whole number of
/// 8-byte words long.
pub struct OutboundMessage {
    segments: Vec<Vec<u8>>,
}

impl View for OutboundMessage {
    type V = Seq<Seq<u8>>;

    closed spec fn view(&self) -> Seq<Seq<u8>> {
        views(self.segments@)
    }
}

impl OutboundMessage {
    /// Every message can be framed, and has fewer segments than a counter can
    /// count.
    #[verifier::type_invariant]
    pub open spec fn inv(self) -> bool {
        OutboundMessage::accepts(self@)
    }

    /// What [`OutboundMessage::new`] asks of the segments it is given.
    pub open spec fn accepts(segments: Seq<Seq<u8>>) -> bool {
        well_formed(segments) && segments.len() < usize::MAX
    }

    /// The message made of `segments`, if they can be framed: there must be
    /// at least one, each a whole number of words long, and the count and
    /// each length must fit a 32-bit field of the segment table.
    pub fn new(segments: Vec<Vec<u8>>) -> (message: Option<OutboundMessage>)
        ensures
            match message {
                Some(message) => OutboundMessage::accepts(views(segments@)) && message@ == views(
                    segments@,
                ),
                None => !OutboundMessage::accepts(views(segments@)),
            },
    {
        let count: usize = segments.len();
        if count == 0 || count == usize::MAX || count as u64 > 0x1_0000_0000 {
            return None;
        }
        let mut index: usize = 0;
        while index < count
            invariant
                index <= count == segments@.len(),
                forall|at: int|
                    0 <= at < index ==> (#[trigger] views(segments@)[at]).len() % 8 == 0 && views(
                        segments@,
                    )[at].len() / 8 <= u32::MAX,
            decreases count - index,
        {
            let len: usize = segments[index].len();
            assert(views(segments@)[index as int] == segments@[index as int]@);
            if len % 8 != 0 || (len / 8) as u64 > 0xffff_ffff {
                return None;
            }
            index += 1;
        }
        Some(OutboundMessage { segments })
    }

    /// The segments, in order.
    pub fn get_segments_for_output(&self) -> (segments: &[Vec<u8>])
        ensures
            views(segments@) == self@,
            OutboundMessage::accepts(self@),
    {
        proof {
            use_type_invariant(self);
        }
        self.segments.as_slice()
    }
}

} // verus!
