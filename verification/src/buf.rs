//! An append-only byte slab and the views it hands out.
//!
//! A [`MutBuf`] is a region of fixed capacity that is filled from the front.
//! What has been written is never written again, so a [`Buf`] taken over a
//! range of it holds the same bytes for as long as it lives, whatever is
//! appended to the slab afterwards and whether or not the slab is still
//! around.

use crate::error::Error;
use vstd::prelude::*;
use vstd::slice::{slice_subrange, slice_to_vec};

verus! {

/// The capacity a slab is allocated with where no other is asked for.
pub const BUF_SIZE: usize = 4096;

/// The bytes at the head of every allocation that are kept for bookkeeping
/// and are not part of the payload: one 8-byte word.
pub const HEADER_LEN: usize = 8;

/// The payload that an allocation of `len` bytes leaves: the allocation is at
/// least one word, and its first word is not payload.
pub open spec fn payload_len(len: nat) -> nat {
    if len <= HEADER_LEN {
        0
    } else {
        (len - HEADER_LEN) as nat
    }
}

/// What one read from a transport gave.
pub enum ReadOutcome<'a> {
    /// The transport returned these bytes; none means that it has ended.
    Read(&'a [u8]),
    /// The transport is not ready.
    WouldBlock,
    /// The read was interrupted before it transferred anything.
    Interrupted,
    /// The read failed.
    Failed,
}

impl<'a> ReadOutcome<'a> {
    /// The bytes that the transport gave.
    pub open spec fn bytes(self) -> Seq<u8> {
        match self {
            ReadOutcome::Read(bytes) => bytes@,
            _ => Seq::empty(),
        }
    }

    /// The error that the outcome amounts to, if any: a transport that has
    /// ended while more was expected has failed, and an interruption is
    /// nothing but a reason to read again.
    pub open spec fn error(self) -> Option<Error> {
        match self {
            ReadOutcome::Read(bytes) => if bytes@.len() == 0 {
                Some(Error::UnexpectedEof)
            } else {
                None
            },
            ReadOutcome::WouldBlock => Some(Error::WouldBlock),
            ReadOutcome::Interrupted => None,
            ReadOutcome::Failed => Some(Error::TransportIo),
        }
    }
}

/// A byte region of fixed length.
pub struct RawBuf {
    bytes: Vec<u8>,
}

impl View for RawBuf {
    type V = Seq<u8>;

    closed spec fn view(&self) -> Seq<u8> {
        self.bytes@
    }
}

impl RawBuf {
    /// Allocates a region of about `len` bytes: `len` is raised to one word,
    /// and the first word is set aside.
    pub fn new(len: usize) -> (raw: RawBuf)
        ensures
            raw@.len() == payload_len(len as nat),
    {
        let payload: usize = if len < HEADER_LEN {
            0
        } else {
            len - HEADER_LEN
        };
        RawBuf { bytes: vec![0u8; payload] }
    }

    /// The payload.
    pub fn buf(&self) -> (bytes: &[u8])
        ensures
            bytes@ == self@,
    {
        self.bytes.as_slice()
    }

    /// The length of the payload in bytes.
    pub fn len(&self) -> (len: usize)
        ensures
            len == self@.len(),
    {
        self.bytes.len()
    }
}

impl Clone for RawBuf {
    fn clone(&self) -> (raw: RawBuf)
        ensures
            raw@ == self@,
    {
        let bytes = self.bytes.clone();
        assert(bytes@ =~= self.bytes@);
        RawBuf { bytes }
    }
}

/// A view of a range of bytes that were committed to a [`MutBuf`].
pub struct Buf {
    bytes: Vec<u8>,
}

impl View for Buf {
    type V = Seq<u8>;

    closed spec fn view(&self) -> Seq<u8> {
        self.bytes@
    }
}

impl Buf {
    /// A view is no longer than a `usize` can say.
    pub proof fn lemma_len(&self)
        ensures
            self@.len() <= usize::MAX,
    {
        assert(self.bytes.len() == self.bytes@.len());
    }

    /// The bytes in view.
    pub fn as_slice(&self) -> (bytes: &[u8])
        ensures
            bytes@ == self@,
    {
        self.bytes.as_slice()
    }

    /// The number of bytes in view.
    pub fn len(&self) -> (len: usize)
        ensures
            len == self@.len(),
    {
        self.bytes.len()
    }
}

impl Clone for Buf {
    fn clone(&self) -> (buf: Buf)
        ensures
            buf@ == self@,
    {
        let bytes = self.bytes.clone();
        assert(bytes@ =~= self.bytes@);
        Buf { bytes }
    }
}

impl core::ops::Deref for Buf {
    type Target = [u8];

    fn deref(&self) -> (bytes: &[u8])
        ensures
            bytes@ == self@,
    {
        self.bytes.as_slice()
    }
}

/// A slab: a byte region of fixed capacity that is filled from the front and
/// never rewritten.
///
/// Its view is what has been committed so far.
pub struct MutBuf {
    raw: RawBuf,
    offset: usize,
}

impl View for MutBuf {
    type V = Seq<u8>;

    closed spec fn view(&self) -> Seq<u8> {
        self.raw@.take(self.offset as int)
    }
}

/// How many of `amount` bytes are still wanted once `buffered` are there.
pub open spec fn missing_bytes(amount: nat, buffered: nat) -> nat {
    if buffered >= amount {
        0
    } else {
        (amount - buffered) as nat
    }
}

/// The capacity that a slab is replaced with so that `amount` bytes fit.
pub open spec fn replacement_capacity(amount: nat) -> nat {
    if amount + HEADER_LEN > BUF_SIZE {
        amount + HEADER_LEN as nat
    } else {
        BUF_SIZE as nat
    }
}

impl MutBuf {
    /// The slab's invariant: what is committed lies within the region.
    pub closed spec fn wf(&self) -> bool {
        self.offset <= self.raw@.len()
    }

    /// The number of bytes the slab can hold.
    pub closed spec fn capacity(&self) -> nat {
        self.raw@.len()
    }

    /// What is committed never exceeds the capacity, which fits a `usize`.
    pub proof fn lemma_within_capacity(&self)
        requires
            self.wf(),
        ensures
            self@.len() <= self.capacity() <= usize::MAX,
    {
        assert(self.raw.bytes.len() == self.raw.bytes@.len());
    }

    /// An empty slab of the default size.
    pub fn new() -> (buf: MutBuf)
        ensures
            buf.wf(),
            buf@ == Seq::<u8>::empty(),
            buf.capacity() == payload_len(BUF_SIZE as nat),
    {
        MutBuf::with_capacity(BUF_SIZE)
    }

    /// An empty slab allocated with `cap` bytes, of which the first word is not
    /// payload.
    pub fn with_capacity(cap: usize) -> (buf: MutBuf)
        ensures
            buf.wf(),
            buf@ == Seq::<u8>::empty(),
            buf.capacity() == payload_len(cap as nat),
    {
        let buf = MutBuf { raw: RawBuf::new(cap), offset: 0 };
        assert(buf@ =~= Seq::<u8>::empty());
        buf
    }

    /// The number of bytes committed.
    pub fn len(&self) -> (len: usize)
        requires
            self.wf(),
        ensures
            len == self@.len(),
    {
        self.offset
    }

    /// The number of bytes that can still be appended.
    pub fn remaining(&self) -> (room: usize)
        requires
            self.wf(),
        ensures
            room == self.capacity() - self@.len(),
    {
        self.raw.len() - self.offset
    }

    /// What is committed.
    pub fn as_slice(&self) -> (bytes: &[u8])
        requires
            self.wf(),
        ensures
            bytes@ == self@,
    {
        slice_subrange(self.raw.buf(), 0, self.offset)
    }

    /// Appends as much of `buf` as fits and returns how many bytes that was.
    pub fn write(&mut self, buf: &[u8]) -> (count: usize)
        requires
            old(self).wf(),
        ensures
            final(self).wf(),
            final(self).capacity() == old(self).capacity(),
            count == if buf@.len() <= old(self).capacity() - old(self)@.len() {
                buf@.len() as int
            } else {
                old(self).capacity() - old(self)@.len()
            },
            final(self)@ == old(self)@ + buf@.take(count as int),
    {
        let room: usize = self.raw.len() - self.offset;
        let count: usize = if buf.len() < room {
            buf.len()
        } else {
            room
        };
        let mut index: usize = 0;
        while index < count
            invariant
                index <= count <= buf@.len(),
                self.offset == old(self).offset,
                self.offset + count <= self.raw@.len() <= usize::MAX,
                self.raw@.len() == old(self).raw@.len(),
                self.raw@.take(self.offset as int) == old(self)@,
                self.raw@.subrange(self.offset as int, self.offset + index) == buf@.take(
                    index as int,
                ),
            decreases count - index,
        {
            let ghost before = self.raw@;
            self.raw.bytes.set(self.offset + index, buf[index]);
            proof {
                assert(self.raw@.take(self.offset as int) =~= before.take(self.offset as int));
                assert(self.raw@.subrange(self.offset as int, self.offset + index + 1)
                    =~= before.subrange(self.offset as int, self.offset + index).push(
                    buf@[index as int],
                ));
                assert(buf@.take(index + 1) =~= buf@.take(index as int).push(buf@[index as int]));
            }
            index += 1;
        }
        proof {
            assert(self.raw@.take(self.offset + count) =~= self.raw@.take(self.offset as int)
                + self.raw@.subrange(self.offset as int, self.offset + count));
        }
        self.offset += count;
        count
    }

    /// A view of the `len` committed bytes that start at `offset`.
    pub fn buf(&self, offset: usize, len: usize) -> (view: Buf)
        requires
            self.wf(),
            offset + len <= self@.len(),
        ensures
            view@ == self@.subrange(offset as int, offset + len),
    {
        let range = slice_subrange(self.raw.buf(), offset, offset + len);
        proof {
            assert(range@ =~= self@.subrange(offset as int, offset + len));
        }
        Buf { bytes: slice_to_vec(range) }
    }

    /// Takes in what one read from the transport gave, on the way to `amount`
    /// more bytes, and returns how many of them are still missing.
    ///
    /// The read was made into the uncommitted part of the slab, so what it
    /// returned fits there. Bytes are committed; an end of input is an error,
    /// since more was expected; an interruption changes nothing and leaves
    /// the whole amount to be read.
    pub fn fill(&mut self, outcome: ReadOutcome<'_>, amount: usize) -> (result: Result<
        usize,
        Error,
    >)
        requires
            old(self).wf(),
            amount <= old(self).capacity() - old(self)@.len(),
            outcome.bytes().len() <= old(self).capacity() - old(self)@.len(),
        ensures
            final(self).wf(),
            final(self).capacity() == old(self).capacity(),
            match outcome.error() {
                Some(error) => result == Err::<usize, Error>(error) && final(self)@ == old(self)@,
                None => result == Ok::<usize, Error>(
                    missing_bytes(amount as nat, outcome.bytes().len()) as usize,
                ) && final(self)@ == old(self)@ + outcome.bytes(),
            },
    {
        match outcome {
            ReadOutcome::Read(bytes) => {
                if bytes.len() == 0 {
                    return Err(Error::UnexpectedEof);
                }
                let count = self.write(bytes);
                proof {
                    assert(bytes@.take(count as int) =~= bytes@);
                }
                if count >= amount {
                    Ok(0)
                } else {
                    Ok(amount - count)
                }
            },
            ReadOutcome::WouldBlock => Err(Error::WouldBlock),
            ReadOutcome::Interrupted => {
                proof {
                    assert(self@ + outcome.bytes() =~= self@);
                }
                Ok(amount)
            },
            ReadOutcome::Failed => Err(Error::TransportIo),
        }
    }

    /// Makes room for `amount` bytes behind the offset `from` and returns how
    /// many of them are not buffered yet.
    ///
    /// Where the slab cannot hold what is missing, it is replaced by a fresh
    /// one that can: the bytes behind `from` move to its front and `from`
    /// becomes 0. Views of the old slab are not affected.
    pub fn fill_or_replace(&mut self, from: &mut usize, amount: usize) -> (missing: usize)
        requires
            old(self).wf(),
            *old(from) <= old(self)@.len(),
            amount + HEADER_LEN <= usize::MAX,
        ensures
            final(self).wf(),
            *final(from) <= final(self)@.len(),
            final(self)@.skip(*final(from) as int) == old(self)@.skip(*old(from) as int),
            missing == missing_bytes(amount as nat, (old(self)@.len() - *old(from)) as nat),
            missing <= final(self).capacity() - final(self)@.len(),
            missing > old(self).capacity() - old(self)@.len() ==> {
                &&& *final(from) == 0
                &&& final(self)@ == old(self)@.skip(*old(from) as int)
                &&& final(self).capacity() == payload_len(replacement_capacity(amount as nat))
            },
            missing <= old(self).capacity() - old(self)@.len() ==> {
                &&& *final(from) == *old(from)
                &&& *final(self) == *old(self)
            },
    {
        let buffered_amount: usize = self.offset - *from;
        if buffered_amount >= amount {
            return 0;
        }
        let remaining_amount: usize = amount - buffered_amount;
        if remaining_amount > self.raw.len() - self.offset {
            // Carry what is still unread over to the front of a slab that is
            // large enough.
            let cap: usize = if amount + HEADER_LEN > BUF_SIZE {
                amount + HEADER_LEN
            } else {
                BUF_SIZE
            };
            let mut fresh = MutBuf::with_capacity(cap);
            let unread = slice_subrange(self.raw.buf(), *from, self.offset);
            let moved = fresh.write(unread);
            proof {
                assert(unread@ =~= old(self)@.skip(*old(from) as int));
                assert(unread@.take(moved as int) =~= unread@);
                assert(fresh@ =~= unread@);
                assert(fresh@.skip(0) =~= fresh@);
            }
            *self = fresh;
            *from = 0;
        }
        remaining_amount
    }
}

/// A view keeps its bytes: once `view` has been taken over a range of `slab`,
/// the same range of the slab holds the same bytes after every later append.
pub proof fn lemma_view_is_stable(
    slab: MutBuf,
    view: Buf,
    offset: int,
    later: MutBuf,
    appended: Seq<u8>,
)
    requires
        0 <= offset,
        offset + view@.len() <= slab@.len(),
        view@ == slab@.subrange(offset, offset + view@.len()),
        later@ == slab@ + appended,
    ensures
        later@.subrange(offset, offset + view@.len()) == view@,
{
    assert(later@.subrange(offset, offset + view@.len()) =~= view@);
}

} // verus!
