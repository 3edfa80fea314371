//! Where a stream stands in the message that it is reading.
//!
//! Ghost code: the relation between the input a stream has taken in and what
//! it has made of it so far, and how each step of reading moves it on.

use crate::buf::{Buf, HEADER_LEN};
use crate::frame::{
    concat, lemma_concat_len, lemma_pending_end, lemma_split_concat, lemma_total_length_take,
    lengths_of, read_frame, too_large, total_length, Frame,
};
use crate::table::{lemma_table_lengths, read_table};
use vstd::prelude::*;

verus! {

/// What each of `segments` holds.
pub open spec fn buf_views(segments: Seq<Buf>) -> Seq<Seq<u8>> {
    Seq::new(segments.len(), |index: int| segments[index]@)
}

/// Whether a stream is in the middle of a message: `inbound` starts with a
/// whole table that is within the limit, `done` are the first segments it
/// announces, `remaining` the lengths of the others with the next one last,
/// and `unread` is what follows the segments that are done.
pub open spec fn reading(
    inbound: Seq<u8>,
    limit: u64,
    done: Seq<Buf>,
    remaining: Seq<u64>,
    unread: Seq<u8>,
) -> bool {
    &&& read_table(inbound) is Done
    &&& !too_large(total_length(read_table(inbound)->lengths), limit)
    &&& parted(
        read_table(inbound)->lengths,
        inbound.skip(read_table(inbound)->size as int),
        done,
        remaining,
        unread,
    )
}

/// Whether segments of `lengths`, which `body` starts with, are parted into
/// `done`, the first of them, and the others, of which `remaining` are the
/// lengths with the next one last and which `unread` starts with.
pub open spec fn parted(
    lengths: Seq<u64>,
    body: Seq<u8>,
    done: Seq<Buf>,
    remaining: Seq<u64>,
    unread: Seq<u8>,
) -> bool {
    &&& lengths == lengths_of(buf_views(done)) + remaining.reverse()
    &&& body == concat(buf_views(done)) + unread
}

/// A stack of lengths with the next one last, turned round, starts with that
/// one.
proof fn lemma_next_length(done: Seq<Seq<u8>>, remaining: Seq<u64>, segment: Seq<u8>)
    requires
        remaining.len() > 0,
        segment.len() == remaining.last(),
    ensures
        lengths_of(done.push(segment)) + remaining.drop_last().reverse() == lengths_of(done)
            + remaining.reverse(),
{
    let left = lengths_of(done.push(segment)) + remaining.drop_last().reverse();
    let right = lengths_of(done) + remaining.reverse();
    assert(left.len() == right.len());
    assert forall|index: int| 0 <= index < left.len() implies left[index] == right[index] by {
        if index < done.len() {
            assert(done.push(segment)[index] == done[index]);
        } else if index == done.len() {
            assert(done.push(segment)[index] == segment);
            assert(remaining.reverse()[0] == remaining.last());
        } else {
            let at = index - done.len() - 1;
            assert(remaining.drop_last().reverse()[at] == remaining.reverse()[at + 1]);
        }
    }
    assert(left =~= right);
}

/// A segment taken from the front of the unread input lies behind the
/// segments that are done.
proof fn lemma_next_segment(done: Seq<Seq<u8>>, unread: Seq<u8>, len: int)
    requires
        0 <= len <= unread.len(),
    ensures
        concat(done.push(unread.take(len))) + unread.skip(len) == concat(done) + unread,
{
    let now = done.push(unread.take(len));
    assert(now.drop_last() =~= done);
    assert(concat(now) == concat(done) + unread.take(len));
    assert(concat(done) + unread.take(len) + unread.skip(len) =~= concat(done) + unread);
}

/// Taking the next segment from the unread input moves it to the segments
/// that are done.
proof fn lemma_parted_step(
    lengths: Seq<u64>,
    body: Seq<u8>,
    done: Seq<Buf>,
    remaining: Seq<u64>,
    unread: Seq<u8>,
    segment: Buf,
)
    requires
        parted(lengths, body, done, remaining, unread),
        remaining.len() > 0,
        remaining.last() <= unread.len(),
        segment@ == unread.take(remaining.last() as int),
    ensures
        parted(
            lengths,
            body,
            done.push(segment),
            remaining.drop_last(),
            unread.skip(remaining.last() as int),
        ),
{
    assert(buf_views(done.push(segment)) =~= buf_views(done).push(segment@));
    lemma_next_length(buf_views(done), remaining, segment@);
    lemma_next_segment(buf_views(done), unread, remaining.last() as int);
}

/// The segments that are done are as long as the table says, and lie behind
/// it one after the other.
proof fn lemma_reading(
    inbound: Seq<u8>,
    limit: u64,
    done: Seq<Buf>,
    remaining: Seq<u64>,
    unread: Seq<u8>,
)
    requires
        reading(inbound, limit, done, remaining, unread),
    ensures
        read_table(inbound)->lengths.take(done.len() as int) == lengths_of(buf_views(done)),
        read_table(inbound)->lengths.len() == done.len() + remaining.len(),
        concat(buf_views(done)).len() == total_length(lengths_of(buf_views(done))),
        inbound.len() == read_table(inbound)->size + concat(buf_views(done)).len() + unread.len(),
        forall|index: int|
            0 <= index < done.len() ==> (#[trigger] buf_views(done)[index]).len() <= u64::MAX,
{
    let lengths = read_table(inbound)->lengths;
    let size = read_table(inbound)->size as int;
    lemma_table_lengths(inbound, 0);
    assert(lengths.take(done.len() as int) =~= lengths_of(buf_views(done)));
    assert forall|index: int| 0 <= index < done.len() implies (#[trigger] buf_views(
        done,
    )[index]).len() <= u64::MAX by {
        done[index].lemma_len();
    }
    lemma_concat_len(buf_views(done));
    assert(inbound.skip(size).len() == concat(buf_views(done)).len() + unread.len());
}

/// The next segment is no longer than a slab can hold.
pub(crate) proof fn lemma_next_segment_fits(
    inbound: Seq<u8>,
    limit: u64,
    done: Seq<Buf>,
    remaining: Seq<u64>,
    unread: Seq<u8>,
)
    requires
        reading(inbound, limit, done, remaining, unread),
        remaining.len() > 0,
    ensures
        remaining.last() + HEADER_LEN <= usize::MAX,
{
    let lengths = read_table(inbound)->lengths;
    let count = done.len() as int;
    assert(lengths[count] == remaining.reverse()[0]);
    lemma_total_length_take(lengths, count);
    lemma_total_length_take(lengths, count + 1);
}

/// Taking the next segment from the unread input keeps the stream in the
/// middle of the same message, one segment on.
pub(crate) proof fn lemma_segment_ready(
    inbound: Seq<u8>,
    limit: u64,
    done: Seq<Buf>,
    remaining: Seq<u64>,
    unread: Seq<u8>,
    segment: Buf,
)
    requires
        reading(inbound, limit, done, remaining, unread),
        remaining.len() > 0,
        remaining.last() <= unread.len(),
        segment@ == unread.take(remaining.last() as int),
    ensures
        reading(
            inbound,
            limit,
            done.push(segment),
            remaining.drop_last(),
            unread.skip(remaining.last() as int),
        ),
{
    lemma_parted_step(
        read_table(inbound)->lengths,
        inbound.skip(read_table(inbound)->size as int),
        done,
        remaining,
        unread,
        segment,
    );
}

/// Where the unread input ends inside the next segment, the message is
/// incomplete by the rest of that segment.
pub(crate) proof fn lemma_segment_pending(
    inbound: Seq<u8>,
    limit: u64,
    done: Seq<Buf>,
    remaining: Seq<u64>,
    unread: Seq<u8>,
)
    requires
        reading(inbound, limit, done, remaining, unread),
        remaining.len() > 0,
        unread.len() < remaining.last(),
    ensures
        read_frame(inbound, limit) == (Frame::Incomplete {
            needed: (remaining.last() - unread.len()) as nat,
        }),
{
    let lengths = read_table(inbound)->lengths;
    let size = read_table(inbound)->size;
    let count = done.len() as int;
    lemma_reading(inbound, limit, done, remaining, unread);
    assert(lengths[count] == remaining.reverse()[0]);
    lemma_total_length_take(lengths, count);
    lemma_pending_end(lengths, size, inbound.len(), count);
}

/// Once no segment remains, the input that was taken in starts with the
/// message made of the segments that are done, and the unread input is what
/// follows it.
pub(crate) proof fn lemma_message_done(inbound: Seq<u8>, limit: u64, done: Seq<Buf>, unread: Seq<u8>)
    requires
        reading(inbound, limit, done, Seq::<u64>::empty(), unread),
    ensures
        read_frame(inbound, limit) == (Frame::Done {
            segments: buf_views(done),
            size: (inbound.len() - unread.len()) as nat,
        }),
        unread.len() <= inbound.len(),
        inbound.skip(inbound.len() - unread.len()) == unread,
{
    let lengths = read_table(inbound)->lengths;
    let size = read_table(inbound)->size;
    lemma_reading(inbound, limit, done, Seq::<u64>::empty(), unread);
    assert(Seq::<u64>::empty().reverse() =~= Seq::<u64>::empty());
    assert(lengths =~= lengths_of(buf_views(done)));
    lemma_split_concat(buf_views(done), unread);
    assert(inbound.skip(size as int).skip(concat(buf_views(done)).len() as int) =~= unread);
    assert(inbound.skip(size as int).skip(concat(buf_views(done)).len() as int) =~= inbound.skip(
        inbound.len() - unread.len(),
    ));
}

} // verus!
