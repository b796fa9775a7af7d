use std::io::{self, Cursor, Read};
use strata_reader::{Buffer, DynamicRead, ErrorKind, ReadError, Reader, SeekPos, CHUNK_SIZE};

/// A source that hands out at most one byte per read.
struct OneByteReader<'a> {
    data: &'a [u8],
}

impl Read for OneByteReader<'_> {
    fn read(&mut self, buf: &mut [u8]) -> io::Result<usize> {
        if self.data.is_empty() || buf.is_empty() {
            return Ok(0);
        }
        buf[0] = self.data[0];
        self.data = &self.data[1..];
        Ok(1)
    }
}

/// A source that claims to have read more than it was given room for.
struct OverclaimingReader;

impl Read for OverclaimingReader {
    fn read(&mut self, buf: &mut [u8]) -> io::Result<usize> {
        Ok(buf.len() + 1)
    }
}

/// A source that always fails with the given kind.
struct FailingReader(io::ErrorKind);

impl Read for FailingReader {
    fn read(&mut self, _buf: &mut [u8]) -> io::Result<usize> {
        Err(io::Error::new(self.0, "failing source"))
    }
}

fn filled(bytes: &[u8]) -> Buffer {
    let mut b = Buffer::new();
    b.fill_exact(&mut Cursor::new(bytes), bytes.len(), 16 * CHUNK_SIZE)
        .unwrap();
    b
}

#[test]
fn buffer_capacity_rounding() {
    assert_eq!(Buffer::new().cap(), CHUNK_SIZE);
    assert_eq!(Buffer::with_capacity(0).cap(), CHUNK_SIZE);
    assert_eq!(Buffer::with_capacity(CHUNK_SIZE).cap(), CHUNK_SIZE);
    assert_eq!(Buffer::with_capacity(CHUNK_SIZE + 1).cap(), 2 * CHUNK_SIZE);
    assert_eq!(Buffer::with_capacity(5 * CHUNK_SIZE).cap(), 5 * CHUNK_SIZE);

    assert_eq!(Buffer::cap_up(0), CHUNK_SIZE);
    assert_eq!(Buffer::cap_up(CHUNK_SIZE), CHUNK_SIZE);
    assert_eq!(Buffer::cap_up(CHUNK_SIZE + 1), 2 * CHUNK_SIZE);
    assert_eq!(Buffer::cap_up(3 * CHUNK_SIZE), 4 * CHUNK_SIZE);
    assert_eq!(Buffer::cap_up(4 * CHUNK_SIZE + 123), 8 * CHUNK_SIZE);
    // Above 1 GiB the rounding is linear
    assert_eq!(Buffer::cap_up((1 << 30) + 1), (1 << 30) + CHUNK_SIZE);
}

#[test]
fn buffer_consume_and_unconsume_clamp() {
    let mut b = filled(b"abcdef");
    b.consume(4);
    assert_eq!(b.pos(), 4);
    b.consume(100);
    assert_eq!(b.pos(), 6);
    b.unconsume(2);
    assert_eq!(b.pos(), 4);
    b.unconsume(100);
    assert_eq!(b.pos(), 0);
    assert_eq!(b.unconsumed(), b"abcdef");
}

#[test]
fn buffer_compact_keeps_unconsumed() {
    let mut b = filled(b"Hello, World!");
    b.consume(7);
    let cap = b.cap();
    b.compact();
    assert_eq!(b.buf(), b"World!");
    assert_eq!(b.pos(), 0);
    assert_eq!(b.cap(), cap);
}

#[test]
fn buffer_shrink_and_discard() {
    let mut b = Buffer::with_capacity(3 * CHUNK_SIZE);
    b.fill_exact(&mut Cursor::new(b"0123456789"), 10, 3 * CHUNK_SIZE)
        .unwrap();
    b.consume(3);
    b.shrink();
    assert_eq!(b.cap(), CHUNK_SIZE);
    assert_eq!(b.buf(), b"0123456789");
    assert_eq!(b.pos(), 3);
    b.shrink();
    assert_eq!(b.cap(), CHUNK_SIZE);

    // Discarding equals clearing then shrinking
    let mut d = Buffer::with_capacity(3 * CHUNK_SIZE);
    d.fill_exact(&mut Cursor::new(b"xyz"), 3, 3 * CHUNK_SIZE).unwrap();
    let mut c = d.clone();
    d.discard();
    c.clear();
    assert_eq!(c.cap(), 3 * CHUNK_SIZE);
    c.shrink();
    assert_eq!(d, c);
    assert_eq!(d.cap(), c.cap());
    assert_eq!(d.cap(), CHUNK_SIZE);
    assert!(d.is_empty());
}

#[test]
fn buffer_take_consumed_splits() {
    let mut b = filled(b"Hello, World!");
    b.consume(7);
    let taken = b.take_consumed();
    assert_eq!(taken.buf(), b"Hello, ");
    assert_eq!(taken.pos(), 7);
    assert_eq!(taken.cap(), CHUNK_SIZE);
    assert_eq!(b.buf(), b"World!");
    assert_eq!(b.pos(), 0);
    let mut joined = taken.buf().to_vec();
    joined.extend_from_slice(b.buf());
    assert_eq!(joined, b"Hello, World!");
}

#[test]
fn buffer_equality_ignores_capacity_and_spare_room() {
    let a = filled(b"abc");
    let mut b = Buffer::with_capacity(4 * CHUNK_SIZE);
    b.fill_exact(&mut Cursor::new(b"abcdef"), 6, 4 * CHUNK_SIZE).unwrap();
    assert_ne!(a, b);
    let mut c = Buffer::with_capacity(4 * CHUNK_SIZE);
    c.fill_exact(&mut Cursor::new(b"abc"), 3, 4 * CHUNK_SIZE).unwrap();
    assert_eq!(a, c);
    c.consume(1);
    assert_ne!(a, c);
}

#[test]
fn buffer_fill_grows_within_limit() {
    let data = vec![7u8; 3 * CHUNK_SIZE];
    let mut b = Buffer::new();
    let n = b
        .fill_amount(&mut Cursor::new(&data), CHUNK_SIZE + 1, 4 * CHUNK_SIZE)
        .unwrap();
    assert!(n >= CHUNK_SIZE + 1);
    assert_eq!(b.cap(), 2 * CHUNK_SIZE);
}

#[test]
fn buffer_fill_does_not_grow() {
    let data = vec![1u8; 2 * CHUNK_SIZE];
    let mut b = Buffer::new();
    let mut src = Cursor::new(&data);
    assert_eq!(b.fill(&mut src).unwrap(), CHUNK_SIZE);
    assert_eq!(b.fill(&mut src).unwrap(), 0); // full
    assert_eq!(b.cap(), CHUNK_SIZE);
}

#[test]
fn reader_fill_until_checks_existing_data_first() {
    let data = "key=value\nrest";
    let mut reader = Reader::new(Cursor::new(data));
    reader.fill_exact(4).unwrap();
    let n = reader.fill_until(b'=').unwrap();
    assert_eq!(n, 0);
    assert_eq!(reader.buffer(), b"key=");
    assert_eq!(reader.get_ref().position(), 4);
}

#[test]
fn reader_fill_until_reads_until_delimiter() {
    let data = b"abcdef\nghi";
    let mut reader = Reader::new(OneByteReader { data });
    let n = reader.fill_until(b'\n').unwrap();
    assert_eq!(n, 7);
    assert_eq!(reader.buffer(), b"abcdef\n");
}

#[test]
fn reader_fill_until_stops_at_end() {
    let mut reader = Reader::new(Cursor::new("no delimiter"));
    let n = reader.fill_until(b'\n').unwrap();
    assert_eq!(n, 12);
    assert_eq!(reader.fill_until(b'\n').unwrap(), 0);
}

#[test]
fn reader_fill_until_stops_at_max_capacity() {
    let data = vec![b'a'; 3 * CHUNK_SIZE];
    let mut reader = Reader::builder(Cursor::new(&data))
        .max_capacity(2 * CHUNK_SIZE)
        .build();
    let n = reader.fill_until(b'\n').unwrap();
    assert_eq!(n, 2 * CHUNK_SIZE);
    assert_eq!(reader.capacity(), 2 * CHUNK_SIZE);
    assert_eq!(reader.fill_until(b'\n').unwrap(), 0);
}

#[test]
fn reader_fill_until_char_across_reads() {
    let text = "caf\u{e9} cr\u{e8}me";
    let mut reader = Reader::new(OneByteReader {
        data: text.as_bytes(),
    });
    let n = reader.fill_until_char('\u{e8}').unwrap();
    assert_eq!(n, "caf\u{e9} cr\u{e8}".len());
    assert_eq!(reader.buffer(), "caf\u{e9} cr\u{e8}".as_bytes());
}

#[test]
fn reader_fill_until_str_across_reads() {
    let text = b"GET / HTTP/1.1\r\nHost: x\r\n\r\nbody";
    let mut reader = Reader::new(OneByteReader { data: text });
    let n = reader.fill_until_str("\r\n\r\n").unwrap();
    assert_eq!(n, 27);
    assert_eq!(&reader.buffer()[23..], b"\r\n\r\n");
    // Already present: nothing more is read
    assert_eq!(reader.fill_until_str("\r\n").unwrap(), 0);
    // The empty needle is always present
    assert_eq!(reader.fill_until_str("").unwrap(), 0);
}

#[test]
fn reader_fill_to_end_and_fill_while() {
    let mut reader = Reader::new(Cursor::new("Hello, World!"));
    assert_eq!(reader.fill_to_end().unwrap(), 13);
    assert_eq!(reader.fill_to_end().unwrap(), 0);

    let data = vec![b'x'; 3 * CHUNK_SIZE];
    let mut reader = Reader::builder(Cursor::new(&data))
        .max_capacity(2 * CHUNK_SIZE)
        .build();
    assert_eq!(reader.fill_to_end().unwrap(), 2 * CHUNK_SIZE);

    // A predicate false on the existing data reads nothing
    let mut reader = Reader::new(OneByteReader { data: b"abc;def" });
    assert_eq!(reader.fill_while(|_| false).unwrap(), 0);
    assert_eq!(reader.buffer(), b"");
    // Stop once a ';' is in the unconsumed data
    let n = reader.fill_while(|buf| !buf.contains(&b';')).unwrap();
    assert_eq!(n, 4);
    assert_eq!(reader.buffer(), b"abc;");
}

#[test]
fn reader_fill_exact_reports_end_and_keeps_bytes() {
    let mut reader = Reader::new(Cursor::new("short"));
    let err = reader.fill_exact(10).unwrap_err();
    assert!(matches!(err, ReadError::UnexpectedEof));
    assert_eq!(err.kind(), ErrorKind::UnexpectedEof);
    assert_eq!(reader.buffer(), b"short");
}

#[test]
fn reader_fill_amount_zero_reads_nothing() {
    let mut reader = Reader::new(Cursor::new("abc"));
    assert_eq!(reader.fill_amount(0).unwrap(), 0);
    assert_eq!(reader.buffer(), b"");
}

#[test]
fn reader_take_consumed() {
    let mut reader = Reader::new(Cursor::new("Hello, World!"));
    reader.fill_to_end().unwrap();
    reader.consume(7);
    let taken = reader.take_consumed();
    assert_eq!(taken.buf(), b"Hello, ");
    assert_eq!(taken.pos(), 7);
    assert_eq!(reader.buffer(), b"World!");
    assert_eq!(reader.pos(), 0);
    assert_eq!(reader.peek_behind(3), b"");
}

#[test]
fn reader_shrink_compact_clear_discard() {
    let data = vec![b'z'; 3 * CHUNK_SIZE];
    let mut reader = Reader::new(Cursor::new(&data));
    reader.fill_exact(2 * CHUNK_SIZE + 5).unwrap();
    assert_eq!(reader.capacity(), 4 * CHUNK_SIZE);
    reader.consume(2 * CHUNK_SIZE);
    reader.compact();
    assert_eq!(reader.buffer().len(), 5);
    assert_eq!(reader.pos(), 0);
    assert_eq!(reader.capacity(), 4 * CHUNK_SIZE);
    reader.shrink();
    assert_eq!(reader.capacity(), CHUNK_SIZE);
    reader.clear();
    assert_eq!(reader.buffer(), b"");
    assert_eq!(reader.capacity(), CHUNK_SIZE);
    reader.fill_exact(CHUNK_SIZE - 5).unwrap();
    reader.discard();
    assert_eq!(reader.buffer(), b"");
    assert_eq!(reader.capacity(), CHUNK_SIZE);
}

#[test]
fn reader_error_variants() {
    // A source claiming too many bytes
    let mut reader = Reader::new(OverclaimingReader);
    let err = reader.fill().unwrap_err();
    assert!(matches!(err, ReadError::ReadCountOutOfRange));
    assert_eq!(err.kind(), ErrorKind::InvalidData);
    assert_eq!(reader.buffer(), b"");

    // A failing source: its error and kind come back
    let mut reader = Reader::new(FailingReader(io::ErrorKind::WouldBlock));
    let err = reader.fill_until(b'x').unwrap_err();
    assert!(matches!(err, ReadError::Io(_)));
    assert_eq!(err.kind(), ErrorKind::WouldBlock);
    let mut reader = Reader::new(FailingReader(io::ErrorKind::BrokenPipe));
    assert_eq!(reader.fill().unwrap_err().kind(), ErrorKind::Other);

    // Too much requested
    let mut reader = Reader::builder(Cursor::new("")).max_capacity(CHUNK_SIZE).build();
    let err = reader.fill_amount(CHUNK_SIZE + 1).unwrap_err();
    assert!(matches!(err, ReadError::ExceedsMaxCapacity));
    assert_eq!(err.message(), "requested amount exceeds maximum buffer capacity");

    // Invalid UTF-8
    let mut reader = Reader::new(Cursor::new(vec![0xC3u8]));
    let mut s = String::new();
    assert!(matches!(reader.read_to_string(&mut s).unwrap_err(), ReadError::InvalidUtf8));

    // Source position before the buffered data
    let mut reader = Reader::new(Cursor::new("abcdef"));
    reader.fill_exact(4).unwrap();
    reader.get_mut().set_position(1);
    assert!(matches!(
        reader.stream_position().unwrap_err(),
        ReadError::PositionBeforeBuffered
    ));
    assert_eq!(reader.logical_position(10).unwrap(), 6);
}

#[test]
fn reader_seek_positions() {
    let mut reader = Reader::new(Cursor::new("0123456789"));
    reader.fill_exact(4).unwrap();
    assert_eq!(reader.seek(SeekPos::End(-2)).unwrap(), 8);
    assert_eq!(reader.buffer(), b"");
    assert_eq!(reader.stream_position().unwrap(), 8);
    let mut buf = [0u8; 2];
    reader.read_exact(&mut buf).unwrap();
    assert_eq!(&buf, b"89");
}

#[test]
fn reader_interrupted_fill_is_retried() {
    struct InterruptTwice<R> {
        inner: R,
        left: u8,
    }
    impl<R: Read> Read for InterruptTwice<R> {
        fn read(&mut self, buf: &mut [u8]) -> io::Result<usize> {
            if self.left > 0 {
                self.left -= 1;
                return Err(io::Error::new(io::ErrorKind::Interrupted, "again"));
            }
            self.inner.read(buf)
        }
    }
    let mut reader = Reader::new(InterruptTwice {
        inner: Cursor::new("data"),
        left: 2,
    });
    assert_eq!(reader.fill_until(b't').unwrap(), 4);
    assert_eq!(reader.buffer(), b"data");
}
