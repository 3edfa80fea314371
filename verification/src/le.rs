//! Little-endian 32-bit fields, the unit a segment table is made of.

use byteorder::{ByteOrder, LittleEndian};
use nom::number::streaming::le_u32;
use vstd::prelude::*;

verus! {

/// The four bytes that encode `n`, least significant byte first.
pub open spec fn le_bytes(n: u32) -> Seq<u8> {
    seq![
        (n % 256) as u8,
        (n / 256 % 256) as u8,
        (n / 65536 % 256) as u8,
        (n / 16777216) as u8,
    ]
}

/// The number that the first four bytes of `bytes` encode, least significant
/// byte first.
pub open spec fn le_value(bytes: Seq<u8>) -> u32
    recommends
        bytes.len() >= 4,
{
    (bytes[0] + 256 * bytes[1] + 65536 * bytes[2] + 16777216 * bytes[3]) as u32
}

/// Decoding undoes encoding.
pub proof fn lemma_le_value_of_bytes(n: u32)
    ensures
        le_bytes(n).len() == 4,
        le_value(le_bytes(n)) == n,
{
}

/// What reading one field from the front of a byte slice gave.
pub enum Field<'a> {
    /// The field's value, and the input that follows it.
    Done(&'a [u8], u32),
    /// The input ended inside the field; this many more bytes complete it.
    Incomplete(usize),
    /// The input ended inside the field, by an unknown amount.
    Unknown,
    /// The input was rejected.
    Failed,
}

/// Encodes `n` with byteorder's `LittleEndian::write_u32`.
///
/// Trusted: the array returned holds `n` least significant byte first, which
/// is what `write_u32` stores in the first four bytes of its buffer.
#[verifier::external_body]
pub(crate) fn write_le_u32(n: u32) -> (out: [u8; 4])
    ensures
        out@ == le_bytes(n),
{
    let mut out: [u8; 4] = [0; 4];
    LittleEndian::write_u32(&mut out, n);
    out
}

/// Reads one field with nom's streaming `le_u32`.
///
/// Trusted: on four bytes or more the parser yields the little-endian value of
/// the first four and the input behind them; on fewer it reports how many
/// bytes are missing.
#[verifier::external_body]
pub(crate) fn read_le_u32<'a>(input: &'a [u8]) -> (field: Field<'a>)
    ensures
        match field {
            Field::Done(rest, value) => input@.len() >= 4 && value == le_value(input@) && rest@
                == input@.skip(4),
            Field::Incomplete(needed) => input@.len() < 4 && needed == 4 - input@.len(),
            Field::Unknown => false,
            Field::Failed => false,
        },
{
    match le_u32::<&[u8], nom::error::Error<&[u8]>>(input) {
        Ok((rest, value)) => Field::Done(rest, value),
        Err(nom::Err::Incomplete(nom::Needed::Size(needed))) => Field::Incomplete(needed.get()),
        Err(nom::Err::Incomplete(nom::Needed::Unknown)) => Field::Unknown,
        Err(_) => Field::Failed,
    }
}

} // verus!
