//! Writing one message: its segment table, then its segments, in as many
//! pieces as the transport takes them.
//!
//! A cursor `(unit, offset)` says how far the message has been written. Unit
//! 0 is the segment table and unit `k` is segment `k - 1`; `offset` counts the
//! bytes of that unit that the transport has accepted.

use crate::error::Error;
use crate::frame::{concat, lemma_concat_split, lemma_concat_take};
use crate::table::views;
use vstd::prelude::*;
use vstd::slice::slice_subrange;

verus! {

/// What one write to a transport gave.
#[derive(Clone, Copy, Debug)]
pub enum WriteOutcome {
    /// The transport accepted this many of the bytes offered.
    Wrote(usize),
    /// The transport is not ready.
    WouldBlock,
    /// The write was interrupted before it transferred anything.
    Interrupted,
    /// The write failed.
    Failed,
}

impl WriteOutcome {
    /// The number of bytes that the transport took.
    pub open spec fn accepted(self) -> nat {
        match self {
            WriteOutcome::Wrote(count) => count as nat,
            _ => 0,
        }
    }

    /// The error that the outcome amounts to, if any: a transport that takes
    /// nothing of what it is offered has failed, and an interruption is
    /// nothing but a reason to offer the same bytes again.
    pub open spec fn error(self) -> Option<Error> {
        match self {
            WriteOutcome::Wrote(count) => if count == 0 {
                Some(Error::WriteZero)
            } else {
                None
            },
            WriteOutcome::WouldBlock => Some(Error::WouldBlock),
            WriteOutcome::Interrupted => None,
            WriteOutcome::Failed => Some(Error::TransportIo),
        }
    }
}

/// The bytes of unit `index` of a message.
pub open spec fn unit_at(table: Seq<u8>, segments: Seq<Seq<u8>>, index: int) -> Seq<u8> {
    if index == 0 {
        table
    } else {
        segments[index - 1]
    }
}

/// The number of bytes of a message that lie before unit `index`.
pub open spec fn unit_start(table: Seq<u8>, segments: Seq<Seq<u8>>, index: int) -> int {
    if index == 0 {
        0
    } else {
        (table.len() + concat(segments.take(index - 1)).len()) as int
    }
}

/// Whether the cursor points at bytes that are still to be written.
pub open spec fn cursor_ready(
    table: Seq<u8>,
    segments: Seq<Seq<u8>>,
    cursor: (usize, usize),
) -> bool {
    cursor.0 <= segments.len() && cursor.1 < unit_at(table, segments, cursor.0 as int).len()
}

/// Whether the cursor stands behind the last unit: the message is written.
pub open spec fn cursor_done(segments: Seq<Seq<u8>>, cursor: (usize, usize)) -> bool {
    cursor.0 == segments.len() + 1 && cursor.1 == 0
}

/// The bytes of a message that the transport has not accepted yet.
pub open spec fn unwritten(
    table: Seq<u8>,
    segments: Seq<Seq<u8>>,
    cursor: (usize, usize),
) -> Seq<u8> {
    (table + concat(segments)).skip(unit_start(table, segments, cursor.0 as int) + cursor.1)
}

/// A unit lies in the message where its start says, and the next unit starts
/// where it ends.
pub proof fn lemma_unit_in_message(table: Seq<u8>, segments: Seq<Seq<u8>>, index: int)
    requires
        0 <= index <= segments.len(),
    ensures
        0 <= unit_start(table, segments, index),
        unit_start(table, segments, index + 1) == unit_start(table, segments, index) + unit_at(
            table,
            segments,
            index,
        ).len(),
        unit_start(table, segments, index + 1) <= (table + concat(segments)).len(),
        (table + concat(segments)).subrange(
            unit_start(table, segments, index),
            unit_start(table, segments, index + 1),
        ) == unit_at(table, segments, index),
{
    let whole = table + concat(segments);
    if index == 0 {
        assert(segments.take(0) =~= Seq::<Seq<u8>>::empty());
        assert(whole.subrange(0, table.len() as int) =~= table);
    } else {
        lemma_concat_take(segments, index - 1);
        lemma_concat_split(segments, index);
        let before = concat(segments.take(index - 1));
        let unit = segments[index - 1];
        assert(whole =~= table + before + unit + concat(segments.skip(index)));
        let start = (table.len() + before.len()) as int;
        assert(whole.subrange(start, start + unit.len()) =~= unit);
    }
}

/// Behind the last unit nothing is left to write.
pub proof fn lemma_done_is_empty(table: Seq<u8>, segments: Seq<Seq<u8>>, cursor: (usize, usize))
    requires
        cursor_done(segments, cursor),
    ensures
        unwritten(table, segments, cursor).len() == 0,
{
    assert(segments.take(segments.len() as int) =~= segments);
}

/// A cursor that points at bytes has bytes left to write.
pub proof fn lemma_ready_has_bytes(table: Seq<u8>, segments: Seq<Seq<u8>>, cursor: (usize, usize))
    requires
        cursor_ready(table, segments, cursor),
    ensures
        unwritten(table, segments, cursor).len() > 0,
{
    lemma_unit_in_message(table, segments, cursor.0 as int);
}

/// What is left of the unit that the cursor points at is the next that is
/// left of the message.
pub proof fn lemma_pending_is_next(table: Seq<u8>, segments: Seq<Seq<u8>>, cursor: (usize, usize))
    requires
        cursor_ready(table, segments, cursor),
    ensures
        ({
            let chunk = unit_at(table, segments, cursor.0 as int).skip(cursor.1 as int);
            &&& 0 < chunk.len() <= unwritten(table, segments, cursor).len()
            &&& chunk == unwritten(table, segments, cursor).take(chunk.len() as int)
        }),
{
    lemma_unit_in_message(table, segments, cursor.0 as int);
    let whole = table + concat(segments);
    let start = unit_start(table, segments, cursor.0 as int);
    let unit = unit_at(table, segments, cursor.0 as int);
    assert(unit.skip(cursor.1 as int) =~= whole.skip(start + cursor.1).take(
        unit.len() - cursor.1,
    ));
}

/// Takes in what one write of `buf` to the transport gave, and counts what was
/// accepted in `offset`. Returns how many bytes of `buf` are left to write.
pub fn write_segment(outcome: WriteOutcome, buf: &[u8], offset: &mut usize) -> (result: Result<
    usize,
    Error,
>)
    requires
        *old(offset) + buf@.len() <= usize::MAX,
        outcome.accepted() <= buf@.len(),
    ensures
        match outcome.error() {
            Some(error) => result == Err::<usize, Error>(error) && *final(offset) == *old(offset),
            None => result == Ok::<usize, Error>((buf@.len() - outcome.accepted()) as usize)
                && *final(offset) == *old(offset) + outcome.accepted(),
        },
{
    match outcome {
        WriteOutcome::Wrote(count) => {
            if count == 0 {
                return Err(Error::WriteZero);
            }
            *offset += count;
            Ok(buf.len() - count)
        },
        WriteOutcome::Interrupted => Ok(buf.len()),
        WriteOutcome::WouldBlock => Err(Error::WouldBlock),
        WriteOutcome::Failed => Err(Error::TransportIo),
    }
}

/// The bytes to offer to the transport next: what is left of the unit that
/// the cursor points at.
pub fn pending_chunk<'a>(
    segment_table: &'a [u8],
    segments: &'a [Vec<u8>],
    current_segment: &(usize, usize),
) -> (chunk: &'a [u8])
    requires
        cursor_ready(segment_table@, views(segments@), *current_segment),
    ensures
        chunk@.len() > 0,
        current_segment.1 + chunk@.len() == unit_at(
            segment_table@,
            views(segments@),
            current_segment.0 as int,
        ).len() <= usize::MAX,
        chunk@ == unit_at(segment_table@, views(segments@), current_segment.0 as int).skip(
            current_segment.1 as int,
        ),
        chunk@.len() <= unwritten(segment_table@, views(segments@), *current_segment).len(),
        chunk@ == unwritten(segment_table@, views(segments@), *current_segment).take(
            chunk@.len() as int,
        ),
{
    let (index, offset) = *current_segment;
    proof {
        lemma_pending_is_next(segment_table@, views(segments@), *current_segment);
    }
    if index == 0 {
        slice_subrange(segment_table, offset, segment_table.len())
    } else {
        let segment = segments[index - 1].as_slice();
        slice_subrange(segment, offset, segment.len())
    }
}

/// Takes in what offering [`pending_chunk`] to the transport gave, and moves
/// the cursor over what was accepted. Returns whether the message is now
/// wholly written.
///
/// The cursor never rests at the end of a unit: it moves on to the next unit
/// that has bytes, or behind the last one. On an error it stays where it was.
pub fn write_message(
    segment_table: &[u8],
    segments: &[Vec<u8>],
    current_segment: &mut (usize, usize),
    outcome: WriteOutcome,
) -> (result: Result<bool, Error>)
    requires
        cursor_ready(segment_table@, views(segments@), *old(current_segment)),
        segments@.len() < usize::MAX,
        outcome.accepted() <= unit_at(
            segment_table@,
            views(segments@),
            old(current_segment).0 as int,
        ).len() - old(current_segment).1,
    ensures
        match outcome.error() {
            Some(error) => result == Err::<bool, Error>(error) && *final(current_segment) == *old(
                current_segment,
            ),
            None => result matches Ok(done) && unwritten(
                segment_table@,
                views(segments@),
                *final(current_segment),
            ) == unwritten(segment_table@, views(segments@), *old(current_segment)).skip(
                outcome.accepted() as int,
            ) && if done {
                cursor_done(views(segments@), *final(current_segment))
            } else {
                cursor_ready(segment_table@, views(segments@), *final(current_segment))
            },
        },
{
    let ghost table = segment_table@;
    let ghost parts = views(segments@);
    let ghost whole = table + concat(parts);
    let chunk = pending_chunk(segment_table, segments, current_segment);
    let (mut index, mut offset) = *current_segment;
    proof {
        lemma_unit_in_message(table, parts, index as int);
    }
    let rest: usize = match write_segment(outcome, chunk, &mut offset) {
        Ok(rest) => rest,
        Err(error) => {
            return Err(error);
        },
    };
    proof {
        let start = unit_start(table, parts, index as int) + old(current_segment).1;
        assert(whole.skip(start).skip(outcome.accepted() as int) =~= whole.skip(
            start + outcome.accepted(),
        ));
    }
    if rest == 0 {
        offset = 0;
        index += 1;
        while index <= segments.len() && segments[index - 1].len() == 0
            invariant
                1 <= index <= segments@.len() + 1,
                segments@.len() < usize::MAX,
                parts == views(segments@),
                unit_start(table, parts, index as int) == unit_start(
                    table,
                    parts,
                    old(current_segment).0 as int,
                ) + old(current_segment).1 + outcome.accepted(),
            decreases segments@.len() + 1 - index,
        {
            proof {
                lemma_unit_in_message(table, parts, index as int);
            }
            index += 1;
        }
    }
    *current_segment = (index, offset);
    Ok(index == segments.len() + 1)
}

} // verus!
