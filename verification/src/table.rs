//! The segment table: the header that frames a message.
//!
//! A table is a run of little-endian 32-bit fields: the number of segments
//! less one, then the length of each segment in 8-byte words, then four bytes
//! of padding where that leaves the table off a word boundary.

use crate::le::{le_bytes, le_value, read_le_u32, write_le_u32, Field};
use vstd::pervasive::unreached;
use vstd::prelude::*;
use vstd::slice::slice_subrange;

verus! {

/// The number of segments a table may announce is below this bound.
pub const SEGMENT_COUNT_BOUND: u32 = 512;

/// The length in bytes of a table of `count` segments.
pub open spec fn table_length(count: nat) -> nat {
    4 * count + if count % 2 == 0 {
        8nat
    } else {
        4nat
    }
}

/// The length fields of a table, one per entry of `words`, in order.
pub open spec fn length_fields(words: Seq<u32>) -> Seq<u8>
    decreases words.len(),
{
    if words.len() == 0 {
        Seq::empty()
    } else {
        length_fields(words.drop_last()) + le_bytes(words.last())
    }
}

/// The padding behind the fields of a table of `count` segments.
pub open spec fn table_padding(count: nat) -> Seq<u8> {
    if count % 2 == 0 {
        seq![0u8, 0u8, 0u8, 0u8]
    } else {
        Seq::empty()
    }
}

/// The table of a message whose segments are `words` words long.
pub open spec fn table_bytes(words: Seq<u32>) -> Seq<u8> {
    le_bytes((words.len() - 1) as u32) + length_fields(words) + table_padding(words.len())
}

/// The segment count that a table's first field announces: one more than the
/// field holds, wrapping to zero past the largest value.
pub open spec fn announced_count(input: Seq<u8>) -> u32 {
    if le_value(input) == u32::MAX {
        0u32
    } else {
        (le_value(input) + 1) as u32
    }
}

/// The byte length of segment `index`, read from its field of the table at the
/// front of `input`.
pub open spec fn length_at(input: Seq<u8>, index: int) -> u64 {
    (le_value(input.skip(4 + 4 * index)) * 8) as u64
}

/// What the front of a byte sequence holds, read as a segment table.
pub enum Table {
    /// A whole table: the byte length of each segment, and the length of the
    /// table itself.
    Done { lengths: Seq<u64>, size: nat },
    /// The start of a table; at least `needed` more bytes complete it.
    Incomplete { needed: nat },
    /// A table that announces `count` segments, which is none or too many.
    Error { count: u32 },
}

/// Reads the table at the front of `input`.
pub open spec fn read_table(input: Seq<u8>) -> Table {
    let count = announced_count(input);
    if input.len() < 4 {
        Table::Incomplete { needed: (4 - input.len()) as nat }
    } else if count == 0 || count >= SEGMENT_COUNT_BOUND {
        Table::Error { count }
    } else if input.len() < table_length(count as nat) {
        Table::Incomplete { needed: (table_length(count as nat) - input.len()) as nat }
    } else {
        Table::Done {
            lengths: Seq::new(count as nat, |index: int| length_at(input, index)),
            size: table_length(count as nat),
        }
    }
}

/// What each of `segments` holds.
pub open spec fn views(segments: Seq<Vec<u8>>) -> Seq<Seq<u8>> {
    Seq::new(segments.len(), |index: int| segments[index]@)
}

/// The length of each segment in words.
pub open spec fn words_of(segments: Seq<Seq<u8>>) -> Seq<u32> {
    Seq::new(segments.len(), |index: int| (segments[index].len() / 8) as u32)
}

/// Whether a message of these segments can be framed: there is at least one
/// segment, each is a whole number of words long, and the count and each
/// length fit a 32-bit field.
pub open spec fn well_formed(segments: Seq<Seq<u8>>) -> bool {
    &&& 1 <= segments.len() <= 0x1_0000_0000
    &&& forall|index: int|
        0 <= index < segments.len() ==> (#[trigger] segments[index]).len() % 8 == 0
            && segments[index].len() / 8 <= u32::MAX
}

/// The result of parsing a segment table from the front of a byte slice.
pub enum Parsed<'a> {
    /// A whole table was read; the input behind it is handed back.
    Done(&'a [u8]),
    /// The input ends inside the table; at least this many more bytes are
    /// needed.
    Incomplete(usize),
    /// The table announces this many segments, which is none or too many.
    Error(u32),
}

impl<'a> Parsed<'a> {
    pub open spec fn done(self) -> bool {
        self is Done
    }

    pub open spec fn incomplete(self) -> bool {
        self is Incomplete
    }

    pub open spec fn err(self) -> bool {
        self is Error
    }

    /// Whether a whole table was read.
    pub fn is_done(&self) -> (b: bool)
        ensures
            b == self.done(),
    {
        match self {
            Parsed::Done(_) => true,
            _ => false,
        }
    }

    /// Whether the input ended inside the table.
    pub fn is_incomplete(&self) -> (b: bool)
        ensures
            b == self.incomplete(),
    {
        match self {
            Parsed::Incomplete(_) => true,
            _ => false,
        }
    }

    /// Whether the table was rejected.
    pub fn is_err(&self) -> (b: bool)
        ensures
            b == self.err(),
    {
        match self {
            Parsed::Error(_) => true,
            _ => false,
        }
    }
}

/// The length in bytes of a table of `count` segments: the count field and
/// the length fields, rounded up to a whole number of words.
pub fn segment_table_length(count: usize) -> (length: usize)
    requires
        count <= usize::MAX / 4 - 2,
    ensures
        length == table_length(count as nat),
        length % 8 == 0,
{
    (1 + count / 2) * 8
}

/// Parses a segment table from the front of `input`.
///
/// On a whole table the byte length of each segment is appended to `lengths`,
/// in the order of the table, and the input behind the table (padding
/// included) is returned. Otherwise `lengths` is left as it was.
pub fn parse_segment_table<'a>(input: &'a [u8], lengths: &mut Vec<u64>) -> (parsed: Parsed<'a>)
    ensures
        match read_table(input@) {
            Table::Done { lengths: read, size } => parsed matches Parsed::Done(rest) && rest@
                == input@.skip(size as int) && final(lengths)@ == old(lengths)@ + read,
            Table::Incomplete { needed } => parsed matches Parsed::Incomplete(hint) && hint
                == needed && final(lengths)@ == old(lengths)@,
            Table::Error { count } => parsed matches Parsed::Error(found) && found == count
                && final(lengths)@ == old(lengths)@,
        },
{
    let (fields, raw) = match read_le_u32(input) {
        Field::Done(rest, value) => (rest, value),
        Field::Incomplete(needed) => {
            return Parsed::Incomplete(needed);
        },
        _ => unreached(),
    };
    let segment_count: u32 = raw.wrapping_add(1);
    if segment_count >= SEGMENT_COUNT_BOUND || segment_count == 0 {
        return Parsed::Error(segment_count);
    }
    let size: usize = segment_table_length(segment_count as usize);
    if input.len() < size {
        return Parsed::Incomplete(size - input.len());
    }
    let ghost before = lengths@;
    let mut rest: &[u8] = fields;
    let mut index: u32 = 0;
    while index < segment_count
        invariant
            index <= segment_count < SEGMENT_COUNT_BOUND,
            size == table_length(segment_count as nat),
            size <= input@.len(),
            rest@ == input@.skip(4 + 4 * index),
            lengths@ == before + Seq::new(index as nat, |at: int| length_at(input@, at)),
        decreases segment_count - index,
    {
        let (next, words) = match read_le_u32(rest) {
            Field::Done(next, words) => (next, words),
            _ => unreached(),
        };
        // The table counts 8-byte words; callers want bytes.
        lengths.push(words as u64 * 8);
        proof {
            assert(next@ == input@.skip(4 + 4 * (index + 1)));
            assert(lengths@ == before + Seq::new(
                (index + 1) as nat,
                |at: int| length_at(input@, at),
            ));
        }
        rest = next;
        index += 1;
    }
    if segment_count % 2 == 0 {
        rest = slice_subrange(rest, 4, rest.len());
    }
    proof {
        assert(rest@ == input@.skip(size as int));
    }
    Parsed::Done(rest)
}

/// Serialises the table of `segments` into `segment_table`, replacing what it
/// held.
pub fn serialize_segment_table(segment_table: &mut Vec<u8>, segments: &[Vec<u8>])
    requires
        well_formed(views(segments@)),
    ensures
        final(segment_table)@ == table_bytes(words_of(views(segments@))),
        final(segment_table)@.len() == table_length(segments@.len()),
        final(segment_table)@.len() % 8 == 0,
{
    proof {
        lemma_table_length(words_of(views(segments@)));
    }
    segment_table.clear();
    let count_field: [u8; 4] = write_le_u32((segments.len() - 1) as u32);
    segment_table.extend_from_slice(&count_field);
    let ghost words = words_of(views(segments@));
    let ghost head = le_bytes((segments@.len() - 1) as u32);
    proof {
        assert(segment_table@ =~= head + length_fields(words.take(0)));
    }
    let mut index: usize = 0;
    while index < segments.len()
        invariant
            index <= segments@.len(),
            well_formed(views(segments@)),
            words == words_of(views(segments@)),
            head == le_bytes((segments@.len() - 1) as u32),
            segment_table@ == head + length_fields(words.take(index as int)),
        decreases segments@.len() - index,
    {
        assert(views(segments@)[index as int] == segments@[index as int]@);
        let field: [u8; 4] = write_le_u32((segments[index].len() / 8) as u32);
        segment_table.extend_from_slice(&field);
        proof {
            let taken = words.take(index + 1);
            assert(taken.drop_last() =~= words.take(index as int));
            assert(taken.last() == (segments@[index as int]@.len() / 8) as u32);
            assert(segment_table@ =~= head + length_fields(taken));
        }
        index += 1;
    }
    proof {
        assert(words.take(index as int) =~= words);
    }
    if segments.len() % 2 == 0 {
        let padding: [u8; 4] = [0, 0, 0, 0];
        segment_table.extend_from_slice(&padding);
        proof {
            assert(segment_table@ =~= head + length_fields(words) + table_padding(words.len()));
        }
    } else {
        proof {
            assert(segment_table@ =~= head + length_fields(words) + table_padding(words.len()));
        }
    }
}

/// The byte length of each segment of a message whose segments are `words`
/// words long.
pub open spec fn byte_lengths(words: Seq<u32>) -> Seq<u64> {
    Seq::new(words.len(), |index: int| (words[index] * 8) as u64)
}

/// The length fields of `words` take four bytes each, and the field at
/// `index` encodes `words[index]`.
pub proof fn lemma_length_fields(words: Seq<u32>, index: int)
    requires
        0 <= index < words.len(),
    ensures
        length_fields(words).len() == 4 * words.len(),
        length_fields(words).subrange(4 * index, 4 * index + 4) == le_bytes(words[index]),
    decreases words.len(),
{
    let front = words.drop_last();
    lemma_length_fields_len(front);
    if index < front.len() {
        lemma_length_fields(front, index);
        assert(length_fields(words).subrange(4 * index, 4 * index + 4) =~= length_fields(
            front,
        ).subrange(4 * index, 4 * index + 4));
    } else {
        assert(length_fields(words).subrange(4 * index, 4 * index + 4) =~= le_bytes(
            words.last(),
        ));
    }
}

/// The length fields of `words` take four bytes each.
pub proof fn lemma_length_fields_len(words: Seq<u32>)
    ensures
        length_fields(words).len() == 4 * words.len(),
    decreases words.len(),
{
    if words.len() > 0 {
        lemma_length_fields_len(words.drop_last());
    }
}

/// A table of `n` segments is `4n + 8` bytes long where `n` is even and
/// `4n + 4` where it is odd: the `n + 1` fields, rounded up to a whole number
/// of 8-byte words. That is the length of what serialising writes.
pub proof fn lemma_table_length(words: Seq<u32>)
    ensures
        table_bytes(words).len() == table_length(words.len()),
        table_length(words.len()) == 4 * words.len() + if words.len() % 2 == 0 {
            8int
        } else {
            4int
        },
        table_length(words.len()) % 8 == 0,
        table_length(words.len()) == 8 * ((4 * (words.len() + 1) + 7) / 8),
{
    lemma_length_fields_len(words);
}

/// Parsing undoes serialising: the table of between 1 and 511 segments,
/// whatever follows it, parses as a whole table that gives each segment's
/// length in bytes, eight times its length in words, and ends where the
/// serialised table ends.
pub proof fn lemma_table_round_trip(words: Seq<u32>, rest: Seq<u8>)
    requires
        1 <= words.len() < SEGMENT_COUNT_BOUND,
    ensures
        read_table(table_bytes(words) + rest) == (Table::Done {
            lengths: byte_lengths(words),
            size: table_bytes(words).len(),
        }),
{
    let table = table_bytes(words);
    let input = table + rest;
    let count = words.len();
    lemma_table_length(words);
    lemma_length_fields_len(words);
    crate::le::lemma_le_value_of_bytes((count - 1) as u32);
    assert(input.subrange(0, 4) =~= le_bytes((count - 1) as u32));
    assert(le_value(input) == le_value(input.subrange(0, 4)));
    assert(announced_count(input) == count);
    let read = Seq::new(count as nat, |index: int| length_at(input, index));
    assert forall|index: int| 0 <= index < count implies read[index] == byte_lengths(
        words,
    )[index] by {
        lemma_length_fields(words, index);
        crate::le::lemma_le_value_of_bytes(words[index]);
        let field = input.skip(4 + 4 * index);
        assert(field.subrange(0, 4) =~= length_fields(words).subrange(4 * index, 4 * index + 4));
        assert(le_value(field) == le_value(field.subrange(0, 4)));
    }
    assert(read =~= byte_lengths(words));
}

/// A table that is whole, or refused, reads the same whatever follows it.
pub proof fn lemma_table_is_stable(input: Seq<u8>, more: Seq<u8>)
    requires
        !(read_table(input) is Incomplete),
    ensures
        read_table(input + more) == read_table(input),
{
    let longer = input + more;
    let count = announced_count(input);
    assert(le_value(longer) == le_value(input));
    let read = Seq::new(count as nat, |index: int| length_at(input, index));
    let read_longer = Seq::new(count as nat, |index: int| length_at(longer, index));
    assert forall|index: int|
        read_table(input) is Done && 0 <= index < count implies read_longer[index]
        == read[index] by {
        let field = input.skip(4 + 4 * index);
        let field_longer = longer.skip(4 + 4 * index);
        assert(field_longer[0] == field[0]);
        assert(field_longer[1] == field[1]);
        assert(field_longer[2] == field[2]);
        assert(field_longer[3] == field[3]);
    }
    if read_table(input) is Done {
        assert(read_longer =~= read);
    }
}

/// Every length that a table gives is a whole number of words, as long as a
/// 32-bit count of words can say.
pub proof fn lemma_table_lengths(input: Seq<u8>, index: int)
    requires
        read_table(input) is Done,
        0 <= index < read_table(input)->lengths.len(),
    ensures
        read_table(input)->lengths[index] % 8 == 0,
        read_table(input)->lengths[index] <= 8 * u32::MAX,
        read_table(input)->lengths.len() < SEGMENT_COUNT_BOUND,
        read_table(input)->size == table_length(read_table(input)->lengths.len()),
        read_table(input)->size <= input.len(),
{
}

} // verus!
