//! The stream: messages in, messages out, over a transport that the caller
//! drives.
//!
//! A [`MessageStream`] never touches the transport. To read, the caller asks
//! for the next message with [`MessageStream::read_message`]; where more
//! input is needed it reads from the transport and hands what it got to
//! [`MessageStream::fill`]. To write, it queues messages with
//! [`MessageStream::write_message`], offers [`MessageStream::pending_write`]
//! to the transport and hands what that gave to [`MessageStream::write`].
//! Whatever the transport does, and in however many pieces, the stream
//! resumes where it was.

use crate::buf::{Buf, MutBuf, ReadOutcome, HEADER_LEN};
use crate::error::Error;
use crate::frame::{
    concat, frame_bytes, lemma_total_length_take, lengths_of, read_frame, total_length, Frame,
};
use crate::message::{OutboundMessage, ReaderOptions, Segments};
use crate::reading::{
    buf_views, lemma_message_done, lemma_next_segment_fits, lemma_segment_pending,
    lemma_segment_ready, reading,
};
use crate::table::{
    lemma_table_is_stable, lemma_table_length, lemma_table_lengths, parse_segment_table,
    read_table, segment_table_length, serialize_segment_table, table_bytes, words_of, Parsed,
    Table, SEGMENT_COUNT_BOUND,
};
use crate::write::{
    cursor_ready, lemma_done_is_empty, lemma_pending_is_next, lemma_ready_has_bytes,
    pending_chunk, unit_at, unwritten, write_message, WriteOutcome,
};
use std::collections::VecDeque;
use vstd::pervasive::unreached;
use vstd::prelude::*;
use vstd::slice::slice_subrange;

verus! {

/// How far an operation that may need more input has come.
pub enum Progress<T> {
    /// It is complete, with this result.
    Ready(T),
    /// It needs at least this many more bytes of input.
    Pending(usize),
}

/// The bytes of the messages of `queue`, framed, one message after the other.
pub open spec fn queued_bytes(queue: Seq<OutboundMessage>) -> Seq<u8>
    decreases queue.len(),
{
    if queue.len() == 0 {
        Seq::empty()
    } else {
        queued_bytes(queue.drop_last()) + frame_bytes(queue.last()@)
    }
}

/// The first message of a queue goes out first.
proof fn lemma_queued_bytes_front(queue: Seq<OutboundMessage>)
    requires
        queue.len() > 0,
    ensures
        queued_bytes(queue) == frame_bytes(queue[0]@) + queued_bytes(
            queue.subrange(1, queue.len() as int),
        ),
    decreases queue.len(),
{
    let rest = queue.subrange(1, queue.len() as int);
    if queue.len() == 1 {
        assert(queue.drop_last() =~= Seq::<OutboundMessage>::empty());
        assert(rest =~= Seq::<OutboundMessage>::empty());
        assert(queued_bytes(queue) =~= frame_bytes(queue[0]@) + queued_bytes(rest));
    } else {
        lemma_queued_bytes_front(queue.drop_last());
        assert(queue.drop_last().subrange(1, queue.len() - 1) =~= rest.drop_last());
        assert(queued_bytes(queue) =~= frame_bytes(queue[0]@) + queued_bytes(rest));
    }
}

/// Turns `lengths` back to front.
fn reverse(lengths: &mut Vec<u64>)
    ensures
        final(lengths)@ == old(lengths)@.reverse(),
{
    let count: usize = lengths.len();
    let mut reversed: Vec<u64> = Vec::new();
    let mut index: usize = count;
    while index > 0
        invariant
            index <= count == lengths@.len(),
            reversed@.len() == count - index,
            forall|at: int| 0 <= at < reversed@.len() ==> reversed@[at] == lengths@[count - 1 - at],
        decreases index,
    {
        index -= 1;
        reversed.push(lengths[index]);
    }
    proof {
        assert(reversed@ =~= lengths@.reverse());
    }
    *lengths = reversed;
}

/// The sum of `lengths`, which are those of a table that was read.
fn total_len(lengths: &Vec<u64>) -> (total: u64)
    requires
        lengths@.len() < SEGMENT_COUNT_BOUND,
        forall|index: int|
            0 <= index < lengths@.len() ==> (#[trigger] lengths@[index]) <= 8 * u32::MAX,
    ensures
        total == total_length(lengths@),
{
    let mut total: u64 = 0;
    let mut index: usize = 0;
    while index < lengths.len()
        invariant
            index <= lengths@.len() < SEGMENT_COUNT_BOUND,
            forall|at: int| 0 <= at < lengths@.len() ==> (#[trigger] lengths@[at]) <= 8 * u32::MAX,
            total == total_length(lengths@.take(index as int)),
            total <= index * (8 * u32::MAX),
        decreases lengths@.len() - index,
    {
        proof {
            lemma_total_length_take(lengths@, index as int);
        }
        total += lengths[index];
        index += 1;
    }
    proof {
        assert(lengths@.take(index as int) =~= lengths@);
    }
    total
}

/// A two-way stream of framed messages.
pub struct MessageStream {
    options: ReaderOptions,
    /// The slab that input is read into.
    buf: MutBuf,
    /// Where in the slab the unread input starts.
    buf_offset: usize,
    /// The lengths of the segments of the message being read that are still
    /// to come, the next one last.
    remaining_segments: Vec<u64>,
    /// The segments of the message being read that are complete.
    segments: Vec<Buf>,
    /// The messages that wait behind the one being written.
    write_queue: VecDeque<OutboundMessage>,
    /// The message being written.
    current_write: Option<OutboundMessage>,
    /// The segment table of the message being written.
    current_segment_table: Vec<u8>,
    /// How far the message being written has been written.
    current_segment: (usize, usize),
    /// The input taken in since the last message was handed out.
    inbound: Ghost<Seq<u8>>,
    /// Everything the transport has accepted.
    sent: Ghost<Seq<u8>>,
    /// Every message that was queued, framed, in order.
    enqueued: Ghost<Seq<u8>>,
}

impl MessageStream {
    /// The input that was taken in and not yet handed out as a message.
    pub closed spec fn inbound(&self) -> Seq<u8> {
        self.inbound@
    }

    /// The bytes that are still to be written: the rest of the message in
    /// progress, then the queued messages in order.
    pub closed spec fn outbound(&self) -> Seq<u8> {
        match self.current_write {
            Some(message) => unwritten(
                self.current_segment_table@,
                message@,
                self.current_segment,
            ) + queued_bytes(self.write_queue@),
            None => Seq::empty(),
        }
    }

    /// The bytes to offer to the transport next: a piece from the front of
    /// [`MessageStream::outbound`].
    pub closed spec fn pending(&self) -> Seq<u8> {
        match self.current_write {
            Some(message) => unit_at(
                self.current_segment_table@,
                message@,
                self.current_segment.0 as int,
            ).skip(self.current_segment.1 as int),
            None => Seq::empty(),
        }
    }

    /// Everything the transport has accepted so far.
    pub closed spec fn sent(&self) -> Seq<u8> {
        self.sent@
    }

    /// Every message that was queued so far, framed, in the order of queuing.
    pub closed spec fn enqueued(&self) -> Seq<u8> {
        self.enqueued@
    }

    /// The traversal limit, in words.
    pub closed spec fn limit(&self) -> u64 {
        self.options.traversal_limit_in_words
    }

    /// The number of bytes that one read may bring.
    pub closed spec fn room(&self) -> nat {
        (self.buf.capacity() - self.buf@.len()) as nat
    }

    closed spec fn write_wf(&self) -> bool {
        &&& forall|index: int|
            0 <= index < self.write_queue@.len() ==> OutboundMessage::accepts(
                (#[trigger] self.write_queue@[index])@,
            )
        &&& match self.current_write {
            Some(message) => {
                &&& OutboundMessage::accepts(message@)
                &&& self.current_segment_table@ == table_bytes(words_of(message@))
                &&& cursor_ready(self.current_segment_table@, message@, self.current_segment)
            },
            None => self.write_queue@.len() == 0,
        }
        &&& self.sent@ + self.outbound() == self.enqueued@
    }

    /// The input in the slab that has not been made part of a message.
    closed spec fn unread(&self) -> Seq<u8> {
        self.buf@.skip(self.buf_offset as int)
    }

    closed spec fn read_wf(&self) -> bool {
        &&& self.buf.wf()
        &&& self.buf_offset <= self.buf@.len()
        &&& if self.remaining_segments@.len() == 0 {
            self.segments@.len() == 0 && self.inbound@ == self.unread()
        } else {
            reading(
                self.inbound@,
                self.options.traversal_limit_in_words,
                self.segments@,
                self.remaining_segments@,
                self.unread(),
            )
        }
    }

    /// The stream's invariant. Among other things: what was sent and what is
    /// still to be written are together what was queued.
    pub closed spec fn wf(&self) -> bool {
        self.read_wf() && self.write_wf()
    }

    /// A stream that has read and written nothing.
    pub fn new(options: ReaderOptions) -> (stream: MessageStream)
        ensures
            stream.wf(),
            stream.limit() == options.traversal_limit_in_words,
            stream.inbound() == Seq::<u8>::empty(),
            stream.outbound() == Seq::<u8>::empty(),
            stream.sent() == Seq::<u8>::empty(),
            stream.enqueued() == Seq::<u8>::empty(),
    {
        let stream = MessageStream {
            options,
            buf: MutBuf::new(),
            buf_offset: 0,
            remaining_segments: Vec::new(),
            segments: Vec::new(),
            write_queue: VecDeque::new(),
            current_write: None,
            current_segment_table: Vec::new(),
            current_segment: (0, 0),
            inbound: Ghost(Seq::empty()),
            sent: Ghost(Seq::empty()),
            enqueued: Ghost(Seq::empty()),
        };
        proof {
            assert(stream.unread() =~= Seq::<u8>::empty());
            assert(stream.sent@ + stream.outbound() =~= stream.enqueued@);
        }
        stream
    }

    /// The number of bytes that one read may bring: the room that is left in
    /// the slab.
    pub fn available_room(&self) -> (room: usize)
        requires
            self.wf(),
        ensures
            room == self.room(),
    {
        self.buf.remaining()
    }

    /// Reads the segment table at the front of the unread input and puts the
    /// lengths it gives on `remaining_segments`, the first one last.
    ///
    /// Where the table is not all there, room is made for the rest of it and
    /// its length is returned. A table that is refused leaves everything as
    /// it was.
    fn read_segment_table(
        options: &ReaderOptions,
        buf: &mut MutBuf,
        buf_offset: &mut usize,
        remaining_segments: &mut Vec<u64>,
    ) -> (result: Result<Progress<()>, Error>)
        requires
            old(buf).wf(),
            *old(buf_offset) <= old(buf)@.len(),
            old(remaining_segments)@.len() == 0,
        ensures
            final(buf).wf(),
            *final(buf_offset) <= final(buf)@.len(),
            match read_frame(
                old(buf)@.skip(*old(buf_offset) as int),
                options.traversal_limit_in_words,
            ) {
                Frame::InvalidCount { count } => {
                    &&& result == Err::<Progress<()>, Error>(
                        Error::DecodeInvalidSegmentCount(count),
                    )
                    &&& final(remaining_segments)@.len() == 0
                    &&& final(buf)@.skip(*final(buf_offset) as int) == old(buf)@.skip(
                        *old(buf_offset) as int,
                    )
                },
                Frame::TooLarge { words } => {
                    &&& result == Err::<Progress<()>, Error>(Error::DecodeMessageTooLarge(words))
                    &&& final(remaining_segments)@.len() == 0
                    &&& final(buf)@.skip(*final(buf_offset) as int) == old(buf)@.skip(
                        *old(buf_offset) as int,
                    )
                },
                _ => match read_table(old(buf)@.skip(*old(buf_offset) as int)) {
                    Table::Done { lengths, size } => {
                        &&& result == Ok::<Progress<()>, Error>(Progress::Ready(()))
                        &&& final(remaining_segments)@ == lengths.reverse()
                        &&& final(buf)@.skip(*final(buf_offset) as int) == old(buf)@.skip(
                            *old(buf_offset) as int,
                        ).skip(size as int)
                    },
                    _ => {
                        &&& result matches Ok(Progress::Pending(missing))
                        &&& read_frame(
                            old(buf)@.skip(*old(buf_offset) as int),
                            options.traversal_limit_in_words,
                        ) matches Frame::Incomplete { needed }
                        &&& missing == needed
                        &&& missing <= final(buf).capacity() - final(buf)@.len()
                        &&& final(remaining_segments)@.len() == 0
                        &&& final(buf)@.skip(*final(buf_offset) as int) == old(buf)@.skip(
                            *old(buf_offset) as int,
                        )
                    },
                },
            },
    {
        let ghost input = buf@.skip(*buf_offset as int);
        let buffered: usize = buf.len() - *buf_offset;
        let unread = slice_subrange(buf.as_slice(), *buf_offset, buf.len());
        proof {
            assert(unread@ =~= input);
        }
        match parse_segment_table(unread, remaining_segments) {
            Parsed::Done(_) => {},
            Parsed::Error(count) => {
                return Err(Error::DecodeInvalidSegmentCount(count));
            },
            Parsed::Incomplete(needed) => {
                let amount: usize = if buffered + needed < 8 {
                    8
                } else {
                    buffered + needed
                };
                let missing = buf.fill_or_replace(buf_offset, amount);
                return Ok(Progress::Pending(missing));
            },
        }
        proof {
            assert(remaining_segments@ =~= read_table(input)->lengths);
            assert forall|index: int| 0 <= index < remaining_segments@.len() implies (
            #[trigger] remaining_segments@[index]) <= 8 * u32::MAX by {
                lemma_table_lengths(input, index);
            }
            lemma_table_lengths(input, 0);
        }
        let total: u64 = total_len(remaining_segments);
        if total / 8 > options.traversal_limit_in_words || total > (usize::MAX - HEADER_LEN) as u64 {
            remaining_segments.clear();
            proof {
                MessageStream::lemma_total_is_words(input);
            }
            return Err(Error::DecodeMessageTooLarge(total / 8));
        }
        proof {
            MessageStream::lemma_total_is_words(input);
        }
        *buf_offset += segment_table_length(remaining_segments.len());
        reverse(remaining_segments);
        proof {
            let size = read_table(input)->size as int;
            assert(buf@.skip(*buf_offset as int) =~= input.skip(size));
        }
        Ok(Progress::Ready(()))
    }

    /// The lengths of a table add up to a whole number of words.
    proof fn lemma_total_is_words(input: Seq<u8>)
        requires
            read_table(input) is Done,
        ensures
            total_length(read_table(input)->lengths) % 8 == 0,
    {
        let lengths = read_table(input)->lengths;
        assert forall|index: int| 0 <= index < lengths.len() implies lengths[index] % 8 == 0 by {
            lemma_table_lengths(input, index);
        }
        MessageStream::lemma_sum_of_words(lengths);
    }

    /// Whole numbers of words add up to a whole number of words.
    proof fn lemma_sum_of_words(lengths: Seq<u64>)
        requires
            forall|index: int| 0 <= index < lengths.len() ==> lengths[index] % 8 == 0,
        ensures
            total_length(lengths) % 8 == 0,
        decreases lengths.len(),
    {
        if lengths.len() > 0 {
            MessageStream::lemma_sum_of_words(lengths.drop_last());
        }
    }

    /// Takes the next `len` bytes of input as a segment, if they are all
    /// there. Where they are not, room is made for them and the number that
    /// is missing is returned.
    fn read_segment(buf: &mut MutBuf, buf_offset: &mut usize, len: usize) -> (result: Progress<
        Buf,
    >)
        requires
            old(buf).wf(),
            *old(buf_offset) <= old(buf)@.len(),
            len + HEADER_LEN <= usize::MAX,
        ensures
            final(buf).wf(),
            *final(buf_offset) <= final(buf)@.len(),
            if old(buf)@.len() - *old(buf_offset) >= len {
                &&& result matches Progress::Ready(segment)
                &&& segment@ == old(buf)@.skip(*old(buf_offset) as int).take(len as int)
                &&& final(buf)@.skip(*final(buf_offset) as int) == old(buf)@.skip(
                    *old(buf_offset) as int,
                ).skip(len as int)
            } else {
                &&& result matches Progress::Pending(missing)
                &&& missing == len - (old(buf)@.len() - *old(buf_offset))
                &&& missing <= final(buf).capacity() - final(buf)@.len()
                &&& final(buf)@.skip(*final(buf_offset) as int) == old(buf)@.skip(
                    *old(buf_offset) as int,
                )
            },
    {
        proof {
            buf.lemma_within_capacity();
        }
        let missing = buf.fill_or_replace(buf_offset, len);
        if missing > 0 {
            return Progress::Pending(missing);
        }
        proof {
            buf.lemma_within_capacity();
        }
        let segment = buf.buf(*buf_offset, len);
        proof {
            assert(segment@ =~= buf@.skip(*buf_offset as int).take(len as int));
            assert(buf@.skip(*buf_offset + len) =~= buf@.skip(*buf_offset as int).skip(
                len as int,
            ));
        }
        *buf_offset += len;
        Progress::Ready(segment)
    }

    /// Reads the next message from the input taken in so far.
    ///
    /// The result depends on that input alone, not on the pieces it came in:
    /// a whole message at its front is handed out, segment by segment as it
    /// stands there, and the input behind it is kept for the next call. Where
    /// the input ends inside the message, the call says how many bytes are
    /// missing of the part it ends in, and has made room for them; after
    /// [`MessageStream::fill`] the next call goes on from there. A message
    /// that is refused is refused again by every later call.
    pub fn read_message(&mut self) -> (result: Result<Progress<Segments>, Error>)
        requires
            old(self).wf(),
        ensures
            final(self).wf(),
            final(self).limit() == old(self).limit(),
            final(self).outbound() == old(self).outbound(),
            final(self).pending() == old(self).pending(),
            final(self).sent() == old(self).sent(),
            final(self).enqueued() == old(self).enqueued(),
            match read_frame(old(self).inbound(), old(self).limit()) {
                Frame::Done { segments, size } => {
                    &&& result matches Ok(Progress::Ready(message))
                    &&& message@ == segments
                    &&& final(self).inbound() == old(self).inbound().skip(size as int)
                },
                Frame::Incomplete { needed } => {
                    &&& result matches Ok(Progress::Pending(missing))
                    &&& missing == needed
                    &&& 0 < missing <= final(self).room()
                    &&& final(self).inbound() == old(self).inbound()
                },
                Frame::InvalidCount { count } => {
                    &&& result == Err::<Progress<Segments>, Error>(
                        Error::DecodeInvalidSegmentCount(count),
                    )
                    &&& final(self).inbound() == old(self).inbound()
                },
                Frame::TooLarge { words } => {
                    &&& result == Err::<Progress<Segments>, Error>(
                        Error::DecodeMessageTooLarge(words),
                    )
                    &&& final(self).inbound() == old(self).inbound()
                },
            },
    {
        let ghost inbound = self.inbound@;
        let ghost limit = self.options.traversal_limit_in_words;
        if self.remaining_segments.len() == 0 {
            match MessageStream::read_segment_table(
                &self.options,
                &mut self.buf,
                &mut self.buf_offset,
                &mut self.remaining_segments,
            ) {
                Ok(Progress::Ready(_)) => {
                    proof {
                        let lengths = read_table(inbound)->lengths;
                        lemma_table_lengths(inbound, 0);
                        assert(buf_views(self.segments@) =~= Seq::<Seq<u8>>::empty());
                        assert(lengths.reverse().reverse() =~= lengths);
                        assert(lengths_of(buf_views(self.segments@)) + lengths =~= lengths);
                        assert(concat(buf_views(self.segments@)) + self.unread()
                            =~= self.unread());
                    }
                },
                Ok(Progress::Pending(missing)) => {
                    return Ok(Progress::Pending(missing));
                },
                Err(error) => {
                    return Err(error);
                },
            }
        }
        proof {
            lemma_table_lengths(inbound, 0);
        }
        while self.remaining_segments.len() > 0
            invariant
                self.buf.wf(),
                self.buf_offset <= self.buf@.len(),
                self.inbound@ == inbound,
                inbound == old(self).inbound@,
                self.options.traversal_limit_in_words == limit,
                limit == old(self).options.traversal_limit_in_words,
                reading(inbound, limit, self.segments@, self.remaining_segments@, self.unread()),
                self.write_wf(),
                self.outbound() == old(self).outbound(),
                self.pending() == old(self).pending(),
                self.sent@ == old(self).sent@,
                self.enqueued@ == old(self).enqueued@,
            decreases self.remaining_segments@.len(),
        {
            let ghost done = self.segments@;
            let ghost unread = self.unread();
            let ghost remaining = self.remaining_segments@;
            let segment_len: u64 = self.remaining_segments[self.remaining_segments.len() - 1];
            proof {
                lemma_next_segment_fits(inbound, limit, done, remaining, unread);
            }
            match MessageStream::read_segment(
                &mut self.buf,
                &mut self.buf_offset,
                segment_len as usize,
            ) {
                Progress::Ready(segment) => {
                    proof {
                        lemma_segment_ready(inbound, limit, done, remaining, unread, segment);
                    }
                    self.segments.push(segment);
                    self.remaining_segments.pop();
                },
                Progress::Pending(missing) => {
                    proof {
                        lemma_segment_pending(inbound, limit, done, remaining, unread);
                    }
                    return Ok(Progress::Pending(missing));
                },
            }
        }
        let mut segments: Vec<Buf> = Vec::new();
        core::mem::swap(&mut self.segments, &mut segments);
        proof {
            assert(self.remaining_segments@ =~= Seq::<u64>::empty());
            lemma_message_done(inbound, limit, segments@, self.unread());
        }
        self.inbound = Ghost(self.unread());
        let message = Segments::new(segments);
        proof {
            assert(message@ =~= buf_views(segments@));
        }
        Ok(Progress::Ready(message))
    }

    /// Takes in what one read from the transport gave, on the way to
    /// `amount` more bytes, and returns how many of them are still missing.
    ///
    /// The read was offered no more than [`MessageStream::available_room`]
    /// bytes of room. Bytes become input, whatever their number; the end of
    /// the transport is an error, since a message was under way or expected;
    /// so is a transport that is not ready or fails, and none of them changes
    /// anything. After an interruption the read is simply made again.
    pub fn fill(&mut self, outcome: ReadOutcome<'_>, amount: usize) -> (result: Result<
        usize,
        Error,
    >)
        requires
            old(self).wf(),
            amount <= old(self).room(),
            outcome.bytes().len() <= old(self).room(),
        ensures
            final(self).wf(),
            final(self).limit() == old(self).limit(),
            final(self).outbound() == old(self).outbound(),
            final(self).pending() == old(self).pending(),
            final(self).sent() == old(self).sent(),
            final(self).enqueued() == old(self).enqueued(),
            match outcome.error() {
                Some(error) => {
                    &&& result == Err::<usize, Error>(error)
                    &&& final(self).inbound() == old(self).inbound()
                    &&& final(self).room() == old(self).room()
                },
                None => {
                    &&& result == Ok::<usize, Error>(
                        crate::buf::missing_bytes(amount as nat, outcome.bytes().len()) as usize,
                    )
                    &&& final(self).inbound() == old(self).inbound() + outcome.bytes()
                    &&& final(self).room() == old(self).room() - outcome.bytes().len()
                },
            },
    {
        let ghost bytes = outcome.bytes();
        let ghost failed = outcome.error() is Some;
        let ghost unread = self.unread();
        proof {
            self.buf.lemma_within_capacity();
        }
        let result = self.buf.fill(outcome, amount);
        proof {
            if !failed {
                assert(self.unread() =~= unread + bytes);
                if self.remaining_segments@.len() > 0 {
                    let size = read_table(self.inbound@)->size as int;
                    lemma_table_is_stable(self.inbound@, bytes);
                    lemma_table_lengths(self.inbound@, 0);
                    assert((self.inbound@ + bytes).skip(size) =~= self.inbound@.skip(size)
                        + bytes);
                    assert(concat(buf_views(self.segments@)) + (unread + bytes) =~= concat(
                        buf_views(self.segments@),
                    ) + unread + bytes);
                }
            }
        }
        self.inbound = Ghost(
            if failed {
                self.inbound@
            } else {
                self.inbound@ + bytes
            },
        );
        result
    }

    /// What a caller that polls for messages is told about one attempt to
    /// read: a transport that is not ready means that there is nothing for
    /// now, which is not the end of the stream; anything else is passed on.
    pub fn next(attempt: Result<Segments, Error>) -> (item: Option<Result<Segments, Error>>)
        ensures
            item == if attempt == Err::<Segments, Error>(Error::WouldBlock) {
                None::<Result<Segments, Error>>
            } else {
                Some(attempt)
            },
    {
        match attempt {
            Err(Error::WouldBlock) => None,
            other => Some(other),
        }
    }

    /// Something is left to write exactly while a message is in progress.
    proof fn lemma_in_progress(&self)
        requires
            self.write_wf(),
        ensures
            (self.current_write is Some) == (self.outbound().len() > 0),
    {
        match self.current_write {
            Some(current) => {
                lemma_ready_has_bytes(self.current_segment_table@, current@, self.current_segment);
            },
            None => {},
        }
    }

    /// Makes the front of the queue the message in progress.
    fn start_next(
        write_queue: &mut VecDeque<OutboundMessage>,
        current_write: &mut Option<OutboundMessage>,
        current_segment_table: &mut Vec<u8>,
        current_segment: &mut (usize, usize),
    )
        requires
            forall|index: int|
                0 <= index < old(write_queue)@.len() ==> OutboundMessage::accepts(
                    (#[trigger] old(write_queue)@[index])@,
                ),
        ensures
            forall|index: int|
                0 <= index < final(write_queue)@.len() ==> OutboundMessage::accepts(
                    (#[trigger] final(write_queue)@[index])@,
                ),
            match *final(current_write) {
                Some(message) => {
                    &&& old(write_queue)@.len() > 0
                    &&& OutboundMessage::accepts(message@)
                    &&& final(current_segment_table)@ == table_bytes(words_of(message@))
                    &&& *final(current_segment) == (0usize, 0usize)
                    &&& cursor_ready(final(current_segment_table)@, message@, (0usize, 0usize))
                    &&& unwritten(final(current_segment_table)@, message@, (0usize, 0usize))
                        + queued_bytes(final(write_queue)@) == queued_bytes(old(write_queue)@)
                },
                None => old(write_queue)@.len() == 0 && final(write_queue)@.len() == 0,
            },
    {
        *current_write = write_queue.pop_front();
        match current_write {
            Some(message) => {
                serialize_segment_table(current_segment_table, message.get_segments_for_output());
                *current_segment = (0, 0);
                proof {
                    lemma_table_length(words_of(message@));
                    lemma_queued_bytes_front(old(write_queue)@);
                    let table = current_segment_table@;
                    assert(unwritten(table, message@, (0usize, 0usize)) =~= frame_bytes(
                        message@,
                    )) by {
                        assert(message@.take(0) =~= Seq::<Seq<u8>>::empty());
                    }
                }
            },
            None => {},
        }
    }

    /// Queues `message` for writing, behind the messages queued before it.
    ///
    /// Returns whether nothing was being written: the caller then starts to
    /// write at once, which on a blocking transport sends the message without
    /// more ado and on a non-blocking one most likely makes progress.
    pub fn write_message(&mut self, message: OutboundMessage) -> (start: bool)
        requires
            old(self).wf(),
        ensures
            final(self).wf(),
            start == (old(self).outbound().len() == 0),
            final(self).outbound() == old(self).outbound() + frame_bytes(message@),
            final(self).enqueued() == old(self).enqueued() + frame_bytes(message@),
            final(self).sent() == old(self).sent(),
            final(self).inbound() == old(self).inbound(),
            final(self).limit() == old(self).limit(),
    {
        let ghost framed = frame_bytes(message@);
        let ghost queue = self.write_queue@;
        proof {
            use_type_invariant(&message);
            self.lemma_in_progress();
        }
        let idle = self.current_write.is_none();
        self.write_queue.push_back(message);
        self.enqueued = Ghost(self.enqueued@ + framed);
        proof {
            assert(self.write_queue@.drop_last() =~= queue);
            assert(queued_bytes(self.write_queue@) == queued_bytes(queue) + framed);
        }
        if idle {
            MessageStream::start_next(
                &mut self.write_queue,
                &mut self.current_write,
                &mut self.current_segment_table,
                &mut self.current_segment,
            );
            proof {
                assert(self.sent@ + self.outbound() =~= self.enqueued@);
                assert(self.outbound() =~= old(self).outbound() + framed);
            }
        } else {
            proof {
                assert(self.outbound() =~= old(self).outbound() + framed);
                assert(self.sent@ + self.outbound() =~= self.enqueued@);
            }
        }
        idle
    }

    /// The bytes to offer to the transport next, if anything is left to
    /// write.
    pub fn pending_write(&self) -> (chunk: Option<&[u8]>)
        requires
            self.wf(),
        ensures
            self.pending().len() <= self.outbound().len(),
            self.pending() == self.outbound().take(self.pending().len() as int),
            match chunk {
                Some(bytes) => bytes@ == self.pending() && bytes@.len() > 0,
                None => self.outbound().len() == 0 && self.pending().len() == 0,
            },
    {
        match &self.current_write {
            Some(message) => {
                let chunk = pending_chunk(
                    self.current_segment_table.as_slice(),
                    message.get_segments_for_output(),
                    &self.current_segment,
                );
                proof {
                    let rest = unwritten(
                        self.current_segment_table@,
                        message@,
                        self.current_segment,
                    );
                    assert(chunk@ =~= (rest + queued_bytes(self.write_queue@)).take(
                        chunk@.len() as int,
                    ));
                }
                Some(chunk)
            },
            None => {
                proof {
                    assert(self.pending() =~= self.outbound().take(0));
                }
                None
            },
        }
    }

    /// Takes in what offering [`MessageStream::pending_write`] to the
    /// transport gave, and returns whether more is left to write.
    ///
    /// What the transport accepted is counted as sent, however little it was.
    /// A message that is wholly written makes way for the next in the queue.
    /// A transport that is not ready, or fails, or accepts nothing, is an
    /// error that leaves everything as it was; after an interruption the
    /// same bytes are simply offered again.
    pub fn write(&mut self, outcome: WriteOutcome) -> (result: Result<bool, Error>)
        requires
            old(self).wf(),
            old(self).outbound().len() > 0,
            outcome.accepted() <= old(self).pending().len(),
        ensures
            final(self).wf(),
            final(self).enqueued() == old(self).enqueued(),
            final(self).inbound() == old(self).inbound(),
            final(self).limit() == old(self).limit(),
            match outcome.error() {
                Some(error) => {
                    &&& result == Err::<bool, Error>(error)
                    &&& final(self).outbound() == old(self).outbound()
                    &&& final(self).sent() == old(self).sent()
                },
                None => {
                    &&& result == Ok::<bool, Error>(final(self).outbound().len() > 0)
                    &&& final(self).outbound() == old(self).outbound().skip(
                        outcome.accepted() as int,
                    )
                    &&& final(self).sent() == old(self).sent() + old(self).outbound().take(
                        outcome.accepted() as int,
                    )
                },
            },
    {
        let ghost before = self.outbound();
        let ghost queued = queued_bytes(self.write_queue@);
        let ghost accepted = outcome.accepted() as int;
        let done = match &self.current_write {
            Some(message) => {
                let ghost rest = unwritten(
                    self.current_segment_table@,
                    message@,
                    self.current_segment,
                );
                proof {
                    lemma_ready_has_bytes(
                        self.current_segment_table@,
                        message@,
                        self.current_segment,
                    );
                }
                proof {
                    lemma_pending_is_next(
                        self.current_segment_table@,
                        message@,
                        self.current_segment,
                    );
                }
                match write_message(
                    self.current_segment_table.as_slice(),
                    message.get_segments_for_output(),
                    &mut self.current_segment,
                    outcome,
                ) {
                    Ok(done) => {
                        proof {
                            assert(accepted <= rest.len());
                            assert((rest + queued).skip(accepted) =~= rest.skip(accepted)
                                + queued);
                            assert((rest + queued).take(accepted) =~= rest.take(accepted));
                            if done {
                                lemma_done_is_empty(
                                    self.current_segment_table@,
                                    message@,
                                    self.current_segment,
                                );
                            }
                        }
                        done
                    },
                    Err(error) => {
                        return Err(error);
                    },
                }
            },
            None => unreached(),
        };
        self.sent = Ghost(self.sent@ + before.take(accepted));
        proof {
            assert(before =~= before.take(accepted) + before.skip(accepted));
        }
        if done {
            self.current_write = None;
            self.current_segment = (0, 0);
            MessageStream::start_next(
                &mut self.write_queue,
                &mut self.current_write,
                &mut self.current_segment_table,
                &mut self.current_segment,
            );
            proof {
                assert(self.outbound() =~= before.skip(accepted));
                assert(self.sent@ + self.outbound() =~= self.enqueued@);
            }
        } else {
            proof {
                assert(self.outbound() =~= before.skip(accepted));
                assert(self.sent@ + self.outbound() =~= self.enqueued@);
            }
        }
        proof {
            self.lemma_in_progress();
        }
        Ok(self.current_write.is_some())
    }
}

/// Nothing is lost and nothing is made up: at every moment, what the
/// transport has accepted and what is still to be written are together the
/// queued messages, framed, in order.
pub proof fn lemma_sent_and_outbound_are_enqueued(stream: MessageStream)
    requires
        stream.wf(),
    ensures
        stream.sent() + stream.outbound() == stream.enqueued(),
{
}

/// However the transport took the bytes, once nothing is left to write it
/// has been given exactly the queued messages, framed, in order.
pub proof fn lemma_drained_stream_sent_everything(stream: MessageStream)
    requires
        stream.wf(),
        stream.outbound().len() == 0,
    ensures
        stream.sent() == stream.enqueued(),
{
    assert(stream.sent() + stream.outbound() =~= stream.sent());
}

} // verus!
