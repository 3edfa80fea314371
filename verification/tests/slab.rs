//! The slab and its views.

use capnp_nonblock::buf::{MutBuf, RawBuf, ReadOutcome, BUF_SIZE};
use capnp_nonblock::error::Error;
use quickcheck::{quickcheck, TestResult};
use std::io::{self, Cursor, Read};

/// Makes one read into as much room as the slab has left.
fn read_into<'a, R: Read>(read: &mut R, scratch: &'a mut Vec<u8>, room: usize) -> ReadOutcome<'a> {
    scratch.clear();
    scratch.resize(room, 0);
    match read.read(&mut scratch[..]) {
        Ok(count) => ReadOutcome::Read(&scratch[..count]),
        Err(error) if error.kind() == io::ErrorKind::WouldBlock => ReadOutcome::WouldBlock,
        Err(error) if error.kind() == io::ErrorKind::Interrupted => ReadOutcome::Interrupted,
        Err(_) => ReadOutcome::Failed,
    }
}

/// Reads from `read` until `amount` more bytes are committed to `buf`.
fn fill<R: Read>(buf: &mut MutBuf, read: &mut R, amount: usize) -> Result<(), Error> {
    assert!(buf.remaining() >= amount);
    let mut scratch = Vec::new();
    let mut missing = amount;
    while missing > 0 {
        let room = buf.remaining();
        let outcome = read_into(read, &mut scratch, room);
        missing = buf.fill(outcome, missing)?;
    }
    Ok(())
}

/// Reads from `read` until `amount` bytes are buffered behind `from`.
fn fill_or_replace_from<R: Read>(
    buf: &mut MutBuf,
    read: &mut R,
    from: &mut usize,
    amount: usize,
) -> Result<(), Error> {
    assert!(*from <= buf.len());
    let missing = buf.fill_or_replace(from, amount);
    fill(buf, read, missing)
}

fn write_all(buf: &mut MutBuf, bytes: &[u8]) {
    assert_eq!(bytes.len(), buf.write(bytes));
}

#[test]
fn test_create_raw_buf() {
    let raw = RawBuf::new(128 * 1024);
    assert_eq!(128 * 1024 - 8, raw.len());
}

#[test]
fn raw_buf_is_cloneable() {
    let raw = RawBuf::new(0);
    let clone = raw.clone();
    assert_eq!(0, clone.len());
}

#[test]
fn mut_buf_write() {
    let mut buf = MutBuf::with_capacity(16);
    assert_eq!(8, buf.write(b"abcdefghijk"));
    assert_eq!(0, buf.write(b"abcdefghijk"));
}

#[test]
fn buf() {
    let mut buf = MutBuf::with_capacity(16);
    write_all(&mut buf, b"abcdefgh");
    assert_eq!(b"", &*buf.buf(0, 0));
    assert_eq!(b"a", &*buf.buf(0, 1));
    assert_eq!(b"ab", &*buf.buf(0, 2));
    assert_eq!(b"abc", &*buf.buf(0, 3));
    assert_eq!(b"abcd", &*buf.buf(0, 4));
    assert_eq!(b"abcde", &*buf.buf(0, 5));
    assert_eq!(b"abcdef", &*buf.buf(0, 6));
    assert_eq!(b"abcdefg", &*buf.buf(0, 7));
    assert_eq!(b"abcdefgh", &*buf.buf(0, 8));
}

#[test]
fn fill_or_replace() {
    let mut buf = MutBuf::with_capacity(14);
    write_all(&mut buf, b"abcdef");
    let mut offset = 3;
    fill_or_replace_from(&mut buf, &mut Cursor::new("ghi"), &mut offset, 6).unwrap();
    assert_eq!(b"defghi", &*buf.buf(offset, 6));
}

#[test]
fn check_buf() {
    fn buf(segments: Vec<Vec<u8>>) -> TestResult {
        let total_len: usize = segments.iter().fold(0, |acc, segment| acc + segment.len());
        let mut buf = MutBuf::with_capacity(total_len + 8);

        for segment in &segments {
            write_all(&mut buf, segment);
        }

        let mut offset = 0;
        for segment in &segments {
            if &segment[..] != &*buf.buf(offset, segment.len()) {
                return TestResult::failed();
            }
            assert_eq!(&segment[..], &*buf.buf(offset, segment.len()));
            offset += segment.len();
        }

        TestResult::passed()
    }

    quickcheck(buf as fn(Vec<Vec<u8>>) -> TestResult);
}

#[test]
fn check_fill() {
    fn check(segments: Vec<Vec<u8>>) -> TestResult {
        let total_len: usize = segments.iter().fold(0, |acc, segment| acc + segment.len());
        let mut buf = MutBuf::with_capacity(total_len + 8);

        for segment in &segments {
            fill(&mut buf, &mut Cursor::new(segment), segment.len()).unwrap();
        }

        let mut offset = 0;
        for segment in &segments {
            if &segment[..] != &*buf.buf(offset, segment.len()) {
                return TestResult::failed();
            }
            assert_eq!(&segment[..], &*buf.buf(offset, segment.len()));
            offset += segment.len();
        }

        TestResult::passed()
    }

    quickcheck(check as fn(Vec<Vec<u8>>) -> TestResult);
}

#[test]
fn check_fill_or_replace() {
    fn check(a: Vec<u8>, b: Vec<u8>, c: Vec<u8>) -> TestResult {
        let mut buf = MutBuf::with_capacity(8 + a.len() + b.len());

        write_all(&mut buf, &a);
        write_all(&mut buf, &b);

        let mut offset = a.len();

        fill_or_replace_from(&mut buf, &mut Cursor::new(&c), &mut offset, b.len() + c.len())
            .unwrap();

        if &b[..] != &*buf.buf(offset, b.len()) {
            return TestResult::failed();
        }

        if &c[..] != &*buf.buf(offset + b.len(), c.len()) {
            return TestResult::failed();
        }

        TestResult::passed()
    }

    quickcheck(check as fn(Vec<u8>, Vec<u8>, Vec<u8>) -> TestResult);
}

#[test]
fn new_slab_has_the_default_capacity_less_one_word() {
    let buf = MutBuf::new();
    assert_eq!(0, buf.len());
    assert_eq!(BUF_SIZE - 8, buf.remaining());
    assert_eq!(4088, buf.remaining());
}

#[test]
fn capacity_below_one_word_leaves_no_payload() {
    for cap in 0..=8 {
        let mut buf = MutBuf::with_capacity(cap);
        assert_eq!(0, buf.remaining());
        assert_eq!(0, buf.write(b"x"));
    }
    assert_eq!(1, MutBuf::with_capacity(9).remaining());
    assert_eq!(0, RawBuf::new(8).len());
    assert_eq!(1, RawBuf::new(9).len());
}

#[test]
fn raw_buf_payload_and_clone_agree() {
    let raw = RawBuf::new(24);
    assert_eq!(16, raw.len());
    assert_eq!(16, raw.buf().len());
    let clone = raw.clone();
    assert_eq!(raw.buf(), clone.buf());
}

#[test]
fn write_appends_and_never_rewrites() {
    let mut buf = MutBuf::with_capacity(8 + 10);
    assert_eq!(4, buf.write(b"abcd"));
    assert_eq!(b"abcd", buf.as_slice());
    assert_eq!(6, buf.write(b"efghijKLMN"));
    assert_eq!(b"abcdefghij", buf.as_slice());
    assert_eq!(10, buf.len());
    assert_eq!(0, buf.remaining());
    assert_eq!(0, buf.write(b"zz"));
    assert_eq!(b"abcdefghij", buf.as_slice());
}

#[test]
fn view_keeps_its_bytes_through_later_appends() {
    let mut buf = MutBuf::with_capacity(8 + 64);
    write_all(&mut buf, b"0123456789");
    let view = buf.buf(2, 5);
    let copy = view.clone();
    assert_eq!(b"23456", &*view);
    for round in 0..6 {
        write_all(&mut buf, &[b'a' + round; 9]);
        assert_eq!(b"23456", &*view);
        assert_eq!(b"23456", &*buf.buf(2, 5));
    }
    assert_eq!(b"23456", &*copy);
    assert_eq!(5, view.len());
    assert_eq!(b"23456", view.as_slice());
}

#[test]
fn view_outlives_the_slab_it_was_taken_from() {
    let mut buf = MutBuf::with_capacity(8 + 8);
    write_all(&mut buf, b"abcdefgh");
    let view = buf.buf(4, 4);
    let mut offset = 6;
    // Asking for more than the slab can hold replaces it.
    let missing = buf.fill_or_replace(&mut offset, 100);
    assert_eq!(98, missing);
    assert_eq!(0, offset);
    assert_eq!(b"gh", buf.as_slice());
    assert_eq!(b"efgh", &*view);
    drop(buf);
    assert_eq!(b"efgh", &*view);
}

#[test]
fn fill_or_replace_keeps_the_slab_where_it_has_room() {
    let mut buf = MutBuf::with_capacity(8 + 16);
    write_all(&mut buf, b"abcdef");
    let mut offset = 2;
    assert_eq!(0, buf.fill_or_replace(&mut offset, 4));
    assert_eq!(2, offset);
    assert_eq!(0, buf.fill_or_replace(&mut offset, 3));
    assert_eq!(8, buf.fill_or_replace(&mut offset, 12));
    assert_eq!(2, offset);
    assert_eq!(b"abcdef", buf.as_slice());
    assert_eq!(10, buf.remaining());
}

#[test]
fn fill_or_replace_sizes_the_new_slab_to_the_request() {
    // A small request gets a slab of the default size.
    let mut buf = MutBuf::with_capacity(8 + 4);
    write_all(&mut buf, b"abcd");
    let mut offset = 1;
    assert_eq!(7, buf.fill_or_replace(&mut offset, 10));
    assert_eq!(0, offset);
    assert_eq!(b"bcd", buf.as_slice());
    assert_eq!(4096 - 8 - 3, buf.remaining());

    // A large one gets a slab that holds exactly the request.
    let mut buf = MutBuf::with_capacity(8 + 4);
    write_all(&mut buf, b"abcd");
    let mut offset = 4;
    assert_eq!(5000, buf.fill_or_replace(&mut offset, 5000));
    assert_eq!(0, offset);
    assert_eq!(0, buf.len());
    assert_eq!(5000, buf.remaining());
}

#[test]
fn fill_commits_what_was_read_and_reports_the_rest() {
    let mut buf = MutBuf::with_capacity(8 + 16);
    assert_eq!(Ok(7), buf.fill(ReadOutcome::Read(b"abc"), 10));
    assert_eq!(Ok(2), buf.fill(ReadOutcome::Read(b"defgh"), 7));
    assert_eq!(Ok(0), buf.fill(ReadOutcome::Read(b"ijkl"), 2));
    assert_eq!(b"abcdefghijkl", buf.as_slice());
}

#[test]
fn fill_turns_each_failure_into_its_error() {
    let mut buf = MutBuf::with_capacity(8 + 16);
    write_all(&mut buf, b"ab");
    assert_eq!(Err(Error::UnexpectedEof), buf.fill(ReadOutcome::Read(b""), 4));
    assert_eq!(Err(Error::WouldBlock), buf.fill(ReadOutcome::WouldBlock, 4));
    assert_eq!(Err(Error::TransportIo), buf.fill(ReadOutcome::Failed, 4));
    assert_eq!(Ok(4), buf.fill(ReadOutcome::Interrupted, 4));
    assert_eq!(b"ab", buf.as_slice());
}

#[test]
fn fill_reports_a_short_transport() {
    let mut buf = MutBuf::with_capacity(8 + 16);
    let result = fill(&mut buf, &mut Cursor::new(b"abc"), 5);
    assert_eq!(Err(Error::UnexpectedEof), result);
    assert_eq!(b"abc", buf.as_slice());
}
