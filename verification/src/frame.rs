//! What a whole message looks like on the wire: its segment table, then its
//! segments one after the other.
//!
//! Everything here is ghost code. The stream's contracts say what it reads and
//! writes in these terms, and the laws at the end relate the two directions.

use crate::buf::HEADER_LEN;
use crate::table::{
    byte_lengths, lemma_table_is_stable, lemma_table_length, lemma_table_lengths,
    lemma_table_round_trip, read_table, table_bytes, well_formed, words_of, Table,
    SEGMENT_COUNT_BOUND,
};
use vstd::prelude::*;

verus! {

/// The segments one after the other.
pub open spec fn concat(segments: Seq<Seq<u8>>) -> Seq<u8>
    decreases segments.len(),
{
    if segments.len() == 0 {
        Seq::empty()
    } else {
        concat(segments.drop_last()) + segments.last()
    }
}

/// The segments one after the other are the first `count` of them one after
/// the other, then the others.
pub proof fn lemma_concat_split(segments: Seq<Seq<u8>>, count: int)
    requires
        0 <= count <= segments.len(),
    ensures
        concat(segments) == concat(segments.take(count)) + concat(segments.skip(count)),
    decreases segments.len(),
{
    if count == segments.len() {
        assert(segments.take(count) =~= segments);
        assert(concat(segments.skip(count)) =~= Seq::<u8>::empty());
        assert(concat(segments) =~= concat(segments) + Seq::<u8>::empty());
    } else {
        let front = segments.drop_last();
        lemma_concat_split(front, count);
        assert(front.take(count) =~= segments.take(count));
        assert(segments.skip(count).drop_last() =~= front.skip(count));
        assert(concat(segments) =~= concat(segments.take(count)) + concat(segments.skip(count)));
    }
}

/// One more segment adds its bytes at the end.
pub proof fn lemma_concat_take(segments: Seq<Seq<u8>>, index: int)
    requires
        0 <= index < segments.len(),
    ensures
        concat(segments.take(index + 1)) == concat(segments.take(index)) + segments[index],
{
    assert(segments.take(index + 1).drop_last() =~= segments.take(index));
}

/// The bytes of a message on the wire.
pub open spec fn frame_bytes(segments: Seq<Seq<u8>>) -> Seq<u8> {
    table_bytes(words_of(segments)) + concat(segments)
}

/// The sum of `lengths`.
pub open spec fn total_length(lengths: Seq<u64>) -> nat
    decreases lengths.len(),
{
    if lengths.len() == 0 {
        0
    } else {
        total_length(lengths.drop_last()) + lengths.last() as nat
    }
}

/// The pieces of `input`, cut from its front one after the other, that are
/// as long as `lengths` says.
pub open spec fn split(input: Seq<u8>, lengths: Seq<u64>) -> Seq<Seq<u8>>
    decreases lengths.len(),
{
    if lengths.len() == 0 {
        Seq::empty()
    } else {
        let front = lengths.drop_last();
        split(input, front).push(
            input.subrange(
                total_length(front) as int,
                total_length(front) + lengths.last() as int,
            ),
        )
    }
}

/// Whether a message of `total` bytes is refused: it exceeds the traversal
/// limit of `limit` words, or what a slab of this machine can hold.
pub open spec fn too_large(total: nat, limit: u64) -> bool {
    total > limit * 8 || total + HEADER_LEN > usize::MAX
}

/// What the front of a byte sequence holds, read as a message.
pub enum Frame {
    /// A whole message: its segments, and the number of bytes it took.
    Done { segments: Seq<Seq<u8>>, size: nat },
    /// The start of a message; at least `needed` more bytes complete it.
    Incomplete { needed: nat },
    /// A message whose table announces `count` segments, which is none or too
    /// many.
    InvalidCount { count: u32 },
    /// A message of `words` words, which is more than is accepted.
    TooLarge { words: u64 },
}

/// How many more bytes are asked for where a table of which `have` bytes are
/// there needs at least `needed` more: enough to make up the shortest table
/// there is, of one word.
pub open spec fn table_request(have: nat, needed: nat) -> nat {
    if have + needed < 8 {
        (8 - have) as nat
    } else {
        needed
    }
}

/// Where the first segment ends that `have` bytes of a message do not
/// complete, counted from the start of the message: `size` is the length of
/// its table and `lengths` are those of its segments.
pub open spec fn pending_end(lengths: Seq<u64>, size: nat, have: nat) -> nat
    decreases lengths.len(),
{
    if lengths.len() == 0 {
        size
    } else if have < size + total_length(lengths.drop_last()) {
        pending_end(lengths.drop_last(), size, have)
    } else {
        size + total_length(lengths)
    }
}

/// Reads the message at the front of `input`, under a traversal limit of
/// `limit` words.
///
/// Where the input ends inside the message, `needed` is what completes the
/// part that it ends in: the table, or the segment.
pub open spec fn read_frame(input: Seq<u8>, limit: u64) -> Frame {
    match read_table(input) {
        Table::Incomplete { needed } => Frame::Incomplete {
            needed: table_request(input.len(), needed),
        },
        Table::Error { count } => Frame::InvalidCount { count },
        Table::Done { lengths, size } => {
            let total = total_length(lengths);
            if too_large(total, limit) {
                Frame::TooLarge { words: (total / 8) as u64 }
            } else if input.len() < size + total {
                Frame::Incomplete {
                    needed: (pending_end(lengths, size, input.len()) - input.len()) as nat,
                }
            } else {
                Frame::Done { segments: split(input.skip(size as int), lengths), size: size + total }
            }
        },
    }
}

/// The first lengths add up to no more than all of them.
pub proof fn lemma_total_length_take(lengths: Seq<u64>, count: int)
    requires
        0 <= count <= lengths.len(),
    ensures
        total_length(lengths.take(count)) <= total_length(lengths),
        count < lengths.len() ==> total_length(lengths.take(count + 1)) == total_length(
            lengths.take(count),
        ) + lengths[count],
    decreases lengths.len(),
{
    if count == lengths.len() {
        assert(lengths.take(count) =~= lengths);
    } else {
        let front = lengths.drop_last();
        lemma_total_length_take(front, count);
        assert(front.take(count) =~= lengths.take(count));
        assert(lengths.take(count + 1).drop_last() =~= lengths.take(count));
    }
}

/// Where `have` bytes end inside segment `index`, that segment is the first
/// that they do not complete.
pub proof fn lemma_pending_end(lengths: Seq<u64>, size: nat, have: nat, index: int)
    requires
        0 <= index < lengths.len(),
        size + total_length(lengths.take(index)) <= have < size + total_length(
            lengths.take(index + 1),
        ),
    ensures
        pending_end(lengths, size, have) == size + total_length(lengths.take(index + 1)),
        have < size + total_length(lengths),
    decreases lengths.len(),
{
    let front = lengths.drop_last();
    lemma_total_length_take(lengths, index + 1);
    if index == lengths.len() - 1 {
        assert(lengths.take(index + 1) =~= lengths);
        assert(lengths.take(index) =~= front);
    } else {
        assert(front.take(index) =~= lengths.take(index));
        assert(front.take(index + 1) =~= lengths.take(index + 1));
        lemma_total_length_take(front, index + 1);
        lemma_pending_end(front, size, have, index);
    }
}

/// The segments one after the other are as long as their lengths add up to.
pub proof fn lemma_concat_len(segments: Seq<Seq<u8>>)
    requires
        forall|index: int|
            0 <= index < segments.len() ==> (#[trigger] segments[index]).len() <= u64::MAX,
    ensures
        concat(segments).len() == total_length(lengths_of(segments)),
    decreases segments.len(),
{
    if segments.len() > 0 {
        lemma_concat_len(segments.drop_last());
        assert(lengths_of(segments).drop_last() =~= lengths_of(segments.drop_last()));
    }
}

/// The length of each segment in bytes.
pub open spec fn lengths_of(segments: Seq<Seq<u8>>) -> Seq<u64> {
    Seq::new(segments.len(), |index: int| segments[index].len() as u64)
}

/// Cutting the segments one after the other, whatever follows them, by their
/// own lengths gives the segments back.
pub proof fn lemma_split_concat(segments: Seq<Seq<u8>>, rest: Seq<u8>)
    requires
        forall|index: int|
            0 <= index < segments.len() ==> (#[trigger] segments[index]).len() <= u64::MAX,
    ensures
        split(concat(segments) + rest, lengths_of(segments)) == segments,
    decreases segments.len(),
{
    if segments.len() == 0 {
        assert(split(concat(segments) + rest, lengths_of(segments)) =~= segments);
    } else {
        let front = segments.drop_last();
        let last = segments.last();
        lemma_split_concat(front, last + rest);
        lemma_concat_len(front);
        assert(lengths_of(segments).drop_last() =~= lengths_of(front));
        assert(concat(front) + (last + rest) =~= concat(segments) + rest);
        let input = concat(segments) + rest;
        let start = total_length(lengths_of(front)) as int;
        assert(input.subrange(start, start + last.len()) =~= last);
        assert(split(input, lengths_of(segments)) =~= segments);
    }
}

/// Reading undoes framing: the bytes of a message of between 1 and 511
/// word-aligned segments that is within the limits, whatever follows them,
/// read as that message, which ends where its bytes end.
pub proof fn lemma_frame_round_trip(segments: Seq<Seq<u8>>, rest: Seq<u8>, limit: u64)
    requires
        well_formed(segments),
        segments.len() < SEGMENT_COUNT_BOUND,
        !too_large(concat(segments).len(), limit),
    ensures
        read_frame(frame_bytes(segments) + rest, limit) == (Frame::Done {
            segments,
            size: frame_bytes(segments).len(),
        }),
{
    let words = words_of(segments);
    let table = table_bytes(words);
    let body = concat(segments);
    let input = frame_bytes(segments) + rest;
    assert(input =~= table + (body + rest));
    lemma_table_round_trip(words, body + rest);
    lemma_table_length(words);
    assert(byte_lengths(words) =~= lengths_of(segments));
    lemma_concat_len(segments);
    lemma_split_concat(segments, rest);
    assert(input.skip(table.len() as int) =~= body + rest);
}

/// The pieces cut from an input that is long enough are the same whatever
/// follows it.
pub proof fn lemma_split_is_stable(input: Seq<u8>, more: Seq<u8>, lengths: Seq<u64>)
    requires
        total_length(lengths) <= input.len(),
    ensures
        split(input + more, lengths) == split(input, lengths),
    decreases lengths.len(),
{
    if lengths.len() > 0 {
        let front = lengths.drop_last();
        let start = total_length(front) as int;
        lemma_split_is_stable(input, more, front);
        assert((input + more).subrange(start, start + lengths.last()) =~= input.subrange(
            start,
            start + lengths.last(),
        ));
    }
}

/// What is read does not depend on what follows it: once the input starts
/// with a whole message, or with one that is refused, more input changes
/// nothing about that.
pub proof fn lemma_frame_is_stable(input: Seq<u8>, more: Seq<u8>, limit: u64)
    requires
        !(read_frame(input, limit) is Incomplete),
    ensures
        read_frame(input + more, limit) == read_frame(input, limit),
{
    lemma_table_is_stable(input, more);
    if read_table(input) is Done {
        let lengths = read_table(input)->lengths;
        let size = read_table(input)->size as int;
        lemma_table_lengths(input, 0);
        if !too_large(total_length(lengths), limit) {
            assert((input + more).skip(size) =~= input.skip(size) + more);
            lemma_split_is_stable(input.skip(size), more, lengths);
        }
    }
}

/// The pieces in which input arrives make no difference: what is read from
/// input that came in two pieces is what is read from the same input in one.
pub proof fn lemma_pieces_make_no_difference(
    input: Seq<u8>,
    first: Seq<u8>,
    second: Seq<u8>,
    limit: u64,
)
    ensures
        read_frame(input + first + second, limit) == read_frame(input + (first + second), limit),
{
    assert(input + first + second =~= input + (first + second));
}

} // verus!
