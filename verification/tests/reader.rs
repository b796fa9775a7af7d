use std::io::{self, BufRead, Cursor, Read, Seek, SeekFrom};
use strata_reader::{
    Buffer, DynamicRead, ErrorKind, Reader, SeekPos, CHUNK_SIZE, DEFAULT_MAX_CAPACITY,
};

/// A reader that reports `Interrupted` on its first read, then delegates.
struct InterruptOnceReader<R> {
    inner: R,
    interrupted: bool,
}

impl<R: Read> Read for InterruptOnceReader<R> {
    fn read(&mut self, buf: &mut [u8]) -> io::Result<usize> {
        if !self.interrupted {
            self.interrupted = true;
            return Err(io::Error::new(io::ErrorKind::Interrupted, "interrupted"));
        }
        self.inner.read(buf)
    }
}

/// A reader that counts `Seek::seek` calls and optionally fails the Nth one (1-indexed).
struct SeekCountingReader<R> {
    inner: R,
    seek_count: usize,
    fail_on_nth: Option<usize>,
}

impl<R: Read> Read for SeekCountingReader<R> {
    fn read(&mut self, buf: &mut [u8]) -> io::Result<usize> {
        self.inner.read(buf)
    }
}

impl<R: Seek> Seek for SeekCountingReader<R> {
    fn seek(&mut self, pos: SeekFrom) -> io::Result<u64> {
        self.seek_count += 1;
        if Some(self.seek_count) == self.fail_on_nth {
            return Err(io::Error::new(io::ErrorKind::InvalidInput, "seek failed"));
        }
        self.inner.seek(pos)
    }
}

/// A reader over `data` whose buffer holds `data[start..end]` unconsumed and whose source is
/// positioned at `end`.
fn reader_with_buffered(data: &str, start: usize, end: usize) -> Reader<Cursor<&str>> {
    let mut cur = Cursor::new(data);
    cur.set_position(start as u64);
    let mut reader = Reader::new(cur);
    reader.fill_exact(end - start).unwrap();
    reader
}

/// A buffer retaining `bytes`, read position 0.
fn buffer_holding(bytes: &[u8]) -> Buffer {
    let mut buffer = Buffer::default();
    buffer
        .fill_exact(&mut Cursor::new(bytes), bytes.len(), DEFAULT_MAX_CAPACITY)
        .unwrap();
    buffer
}

#[test]
fn test_reader_read_read() {
    // Create a reader against no data
    let cur = Cursor::<&str>::default();
    let mut reader = Reader::new(cur);
    let mut buf = [0u8; 123];
    let len = reader.read(&mut buf).unwrap();
    assert_eq!(len, 0);

    // Create a reader against some data
    let data = "Hello, World!";
    let cur = Cursor::new(data);
    let mut reader = Reader::new(cur);
    let mut buf = [0u8; 5];
    let len = reader.read(&mut buf).unwrap();
    assert_eq!(len, buf.len());
    assert_eq!(buf, &data.as_bytes()[..5]);

    // Create a reader with the first 6 bytes buffered
    let mut reader = reader_with_buffered(data, 0, 6);
    let mut buf = [0u8; 3];
    assert_eq!(reader.pos(), 0);
    assert_eq!(reader.buffer().len(), 6);

    // First read, should hit the buffer
    let len = reader.read(&mut buf).unwrap();
    assert_eq!(len, 3);
    assert_eq!(buf, &data.as_bytes()[..3]);
    assert_eq!(reader.pos(), 3);
    assert_eq!(reader.buffer().len(), 6);

    // Second read, should hit the buffer
    let len = reader.read(&mut buf).unwrap();
    assert_eq!(len, 3);
    assert_eq!(buf, &data.as_bytes()[3..6]);
    assert_eq!(reader.pos(), 6);
    assert_eq!(reader.buffer().len(), 6);

    // Third read, should refill the buffer, then hit it
    let len = reader.read(&mut buf).unwrap();
    assert_eq!(len, 3);
    assert_eq!(buf, &data.as_bytes()[6..9]);
    assert_eq!(reader.pos(), 3);
    assert_eq!(reader.buffer().len(), 7);

    // Fourth read, should hit the buffer
    let len = reader.read(&mut buf).unwrap();
    assert_eq!(len, 3);
    assert_eq!(buf, &data.as_bytes()[9..12]);
    assert_eq!(reader.pos(), 6);
    assert_eq!(reader.buffer().len(), 7);

    // Fifth read, EOF after 1 byte
    let len = reader.read(&mut buf).unwrap();
    assert_eq!(len, 1);
    assert_eq!(&buf[..len], &data.as_bytes()[12..]);
    assert_eq!(reader.pos(), 7);
    assert_eq!(reader.buffer().len(), 7);

    // A target larger than the capacity bypasses the buffer
    let cur = Cursor::new(data);
    let mut reader = Reader::new(cur);
    let mut buf = [0u8; 2 * CHUNK_SIZE];
    let len = reader.read(&mut buf).unwrap();
    assert_eq!(len, data.len());
    assert_eq!(&buf[..len], data.as_bytes());
    assert_eq!(reader.buffer().len(), 0);
}

#[test]
fn test_reader_read_read_vectored() {
    // Small target buffers: fill the buffer and copy from there
    let data = "Hello, World!";
    let cur = Cursor::new(data);
    let mut reader = Reader::new(cur);
    let mut buffers = vec![vec![0u8; 5], vec![0u8; 2]];

    let len = reader.read_vectored(&mut buffers).unwrap();
    assert_eq!(len, 7);
    assert_eq!(buffers[0], &data.as_bytes()[..5]);
    assert_eq!(buffers[1], &data.as_bytes()[5..7]);
    assert_eq!(reader.pos(), 7);

    // Second read, should hit the buffer
    let len = reader.read_vectored(&mut buffers).unwrap();
    assert_eq!(len, 6);
    assert_eq!(buffers[0], &data.as_bytes()[7..12]);
    assert_eq!(&buffers[1][..1], &data.as_bytes()[12..]);
    assert_eq!(reader.pos(), data.len());

    // Targets larger than the capacity in all bypass the buffer
    let cur = Cursor::new(data);
    let mut reader = Reader::new(cur);
    let mut buffers = vec![vec![0u8; 5], vec![0u8; 2 * CHUNK_SIZE]];
    let len = reader.read_vectored(&mut buffers).unwrap();
    assert_eq!(len, data.len());
    assert_eq!(buffers[0], data.as_bytes()[..5]);
    assert_eq!(&buffers[1][..8], &data.as_bytes()[5..]);
    assert_eq!(reader.buffer().len(), 0);
}

#[test]
fn test_reader_read_read_to_end() {
    let data = "Hello, World!";
    let mut reader = reader_with_buffered(data, 0, 5);
    assert_eq!(reader.pos(), 0);
    assert_eq!(reader.buffer().len(), 5);

    // Read to end, should take data from the buffer then delegate to the source
    let mut buf = Vec::new();
    let len = reader.read_to_end(&mut buf).unwrap();
    assert_eq!(len, data.len());
    assert_eq!(buf, data.as_bytes());
    assert_eq!(reader.buffer().len(), 0);
}

#[test]
fn test_reader_read_read_to_string() {
    // UTF-8 data, empty target string
    let data = "Hello, World!";
    let cur = Cursor::new(data);
    let mut reader = Reader::new(cur);
    let mut buf = String::new();
    let len = reader.read_to_string(&mut buf).unwrap();
    assert_eq!(len, data.len());
    assert_eq!(buf, data);

    // Non-UTF-8 data, empty target string
    let data = vec![0xFF, 0xFE, 0xFD];
    let cur = Cursor::new(data);
    let mut reader = Reader::new(cur);
    let mut buf = String::new();
    let err = reader.read_to_string(&mut buf).unwrap_err();
    assert_eq!(err.kind(), ErrorKind::InvalidData);

    // UTF-8 data, non-empty target string
    let data = "World!";
    let cur = Cursor::new(data);
    let mut reader = Reader::new(cur);
    let mut buf = String::from("Hello, ");
    let len = reader.read_to_string(&mut buf).unwrap();
    assert_eq!(len, data.len());
    assert_eq!(buf, "Hello, World!");

    // Non-UTF-8 data, non-empty target string
    let data = vec![0xFF, 0xFE, 0xFD];
    let cur = Cursor::new(data);
    let mut reader = Reader::new(cur);
    let mut buf = String::from("keep me");
    let err = reader.read_to_string(&mut buf).unwrap_err();
    assert_eq!(err.kind(), ErrorKind::InvalidData);
    assert_eq!(buf, "keep me");
}

#[test]
fn test_reader_read_read_exact() {
    // All data buffered, read less
    let data = "Hello, World!";
    let mut reader = reader_with_buffered(data, 0, 13);
    assert_eq!(reader.buffer().len(), 13);
    let mut buf = [0u8; 5];
    reader.read_exact(&mut buf).unwrap();
    assert_eq!(buf, &data.as_bytes()[..5]);
    assert_eq!(reader.pos(), 5);

    // Nothing buffered, read less
    let cur = Cursor::new(data);
    let mut reader = Reader::new(cur);
    assert_eq!(reader.buffer().len(), 0);
    let mut buf = [0u8; 5];
    reader.read_exact(&mut buf).unwrap();
    assert_eq!(buf, &data.as_bytes()[..5]);
    assert_eq!(reader.buffer().len(), 13);
    assert_eq!(reader.pos(), 5);

    // Attempt to read more than there is
    let cur = Cursor::new(data);
    let mut reader = Reader::new(cur);
    let mut buf = [0u8; 123];
    let err = reader.read_exact(&mut buf).unwrap_err();
    assert_eq!(err.kind(), ErrorKind::UnexpectedEof);
    assert_eq!(&buf[..data.len()], data.as_bytes());

    // A source interrupted once
    let cur = Cursor::new(data);
    let reader = InterruptOnceReader {
        inner: cur,
        interrupted: false,
    };
    let mut reader = Reader::new(reader);
    let mut buf = [0u8; 13];
    reader.read_exact(&mut buf).unwrap();
    assert_eq!(buf, data.as_bytes());
    assert_eq!(reader.buffer().len(), 13);
    assert_eq!(reader.pos(), 13);
}

#[test]
fn test_reader_bufread_fill_buf() {
    let data = "Hello, World!";
    let cur = Cursor::new(data);
    let mut reader = Reader::new(cur);
    assert_eq!(reader.buffer().len(), 0);

    let slice = reader.fill_buf().unwrap();
    assert_eq!(slice, data.as_bytes());
    assert_eq!(reader.buffer().len(), 13);
    assert_eq!(reader.pos(), 0);

    reader.consume(7);
    let slice = reader.fill_buf().unwrap();
    assert_eq!(slice, &data.as_bytes()[7..]);
    assert_eq!(reader.buffer().len(), 13);
    assert_eq!(reader.pos(), 7);

    reader.consume(data.len() - 7);
    assert_eq!(reader.pos(), data.len());

    let slice = reader.fill_buf().unwrap();
    assert_eq!(slice, &[]);
    assert_eq!(reader.buffer().len(), 0);

    // More data than one read can take
    let mut big_data = "A".repeat(CHUNK_SIZE);
    big_data.push_str(data);
    let cur = Cursor::new(big_data);
    let mut reader = Reader::new(cur);

    let slice = reader.fill_buf().unwrap();
    assert_eq!(&slice[slice.len() - 1..], b"A");
    assert_eq!(reader.buffer().len(), CHUNK_SIZE);

    reader.consume(CHUNK_SIZE);
    assert_eq!(reader.pos(), CHUNK_SIZE);

    let slice = reader.fill_buf().unwrap();
    assert_eq!(&slice[..data.len()], data.as_bytes());
    assert_eq!(reader.buffer().len(), data.len());
}

#[test]
fn test_reader_seek_seek() {
    // Seeking from an absolute position clears retained buffered data
    let data = "Hello, World!";
    let mut reader = reader_with_buffered(data, 0, 13);
    reader.consume(5);
    let pos = reader.seek(SeekPos::Start(1)).unwrap();
    assert_eq!(pos, 1);
    assert_eq!(reader.get_ref().position(), 1);
    assert_eq!(reader.pos(), 0);
    assert_eq!(reader.buffer().len(), 0);

    // Seeking from the current logical position accounts for unconsumed buffered data
    let mut reader = reader_with_buffered(data, 0, 13);
    reader.consume(5);
    let pos = reader.seek(SeekPos::Current(2)).unwrap();
    assert_eq!(pos, 7);
    assert_eq!(reader.get_ref().position(), 7);
    assert_eq!(reader.pos(), 0);
    assert_eq!(reader.buffer().len(), 0);

    // A failed delegated seek preserves retained buffered data
    let mut reader = reader_with_buffered(data, 0, 5);
    let err = reader.seek(SeekPos::Current(-1)).unwrap_err();
    assert_eq!(err.kind(), ErrorKind::InvalidInput);
    assert_eq!(reader.pos(), 0);
    assert_eq!(reader.buffer().len(), 5);
    assert_eq!(reader.get_ref().position(), 5);

    // If the adjusted current seek would underflow `i64`, it seeks in two steps
    let inner = SeekCountingReader {
        inner: Cursor::new(b"x".to_vec()),
        seek_count: 0,
        fail_on_nth: None,
    };
    let mut reader = Reader::new(inner);
    reader.fill_exact(1).unwrap(); // one unconsumed byte
    reader.get_mut().inner.set_position((1_u64 << 63) + 1);
    let pos = reader.seek(SeekPos::Current(i64::MIN)).unwrap();
    assert_eq!(pos, 0);
    assert_eq!(reader.get_ref().inner.position(), 0);
    assert_eq!(reader.get_ref().seek_count, 2);
    assert_eq!(reader.pos(), 0);
    assert_eq!(reader.buffer().len(), 0);

    // If the first step of the underflow path fails, the buffer is preserved
    let inner = SeekCountingReader {
        inner: Cursor::new(b"x".to_vec()),
        seek_count: 0,
        fail_on_nth: Some(1),
    };
    let mut reader = Reader::new(inner);
    reader.fill_exact(1).unwrap();
    let err = reader.seek(SeekPos::Current(i64::MIN)).unwrap_err();
    assert_eq!(err.kind(), ErrorKind::InvalidInput);
    assert_eq!(reader.get_ref().seek_count, 1);
    assert_eq!(reader.get_ref().inner.position(), 1);
    assert_eq!(reader.pos(), 0);
    assert_eq!(reader.buffer().len(), 1);

    // If the second step fails, the reader is left synchronized with an empty buffer
    let inner = SeekCountingReader {
        inner: Cursor::new(b"x".to_vec()),
        seek_count: 0,
        fail_on_nth: Some(2),
    };
    let mut reader = Reader::new(inner);
    reader.fill_exact(1).unwrap();
    let err = reader.seek(SeekPos::Current(i64::MIN)).unwrap_err();
    assert_eq!(err.kind(), ErrorKind::InvalidInput);
    assert_eq!(reader.get_ref().seek_count, 2);
    assert_eq!(reader.get_ref().inner.position(), 0);
    assert_eq!(reader.pos(), 0);
    assert_eq!(reader.buffer().len(), 0);
}

#[test]
fn test_reader_seek_stream_position() {
    // Without buffered data, the logical position is the source's position
    let data = "Hello, World!";
    let mut cur = Cursor::new(data);
    cur.set_position(5);
    let mut reader = Reader::new(cur);
    let pos = reader.stream_position().unwrap();
    assert_eq!(pos, 5);
    assert_eq!(reader.buffer().len(), 0);

    // With unconsumed buffered data, the logical position excludes it
    let mut reader = reader_with_buffered(data, 0, 13);
    let pos = reader.stream_position().unwrap();
    assert_eq!(pos, 0);
    assert_eq!(reader.pos(), 0);
    assert_eq!(reader.buffer().len(), 13);

    // Consumed buffered data counts toward the logical position
    reader.consume(5);
    let pos = reader.stream_position().unwrap();
    assert_eq!(pos, 5);
    assert_eq!(reader.pos(), 5);
    assert_eq!(reader.buffer().len(), 13);

    // All buffered data consumed: the logical position matches the source again
    reader.consume(8);
    let pos = reader.stream_position().unwrap();
    assert_eq!(pos, 13);
    assert_eq!(reader.pos(), 13);
    assert_eq!(reader.buffer().len(), 13);

    // The source is before the unconsumed buffer: the positions are out of sync
    let mut reader = reader_with_buffered(data, 0, 5);
    reader.get_mut().set_position(3);
    let err = reader.stream_position().unwrap_err();
    assert_eq!(err.kind(), ErrorKind::InvalidData);
    assert_eq!(reader.pos(), 0);
    assert_eq!(reader.buffer().len(), 5);
}

#[test]
fn test_reader_seek_relative() {
    // Forward inside unconsumed buffered data only moves the read position
    let data = "Hello, World!";
    let mut reader = reader_with_buffered(data, 0, 13);
    reader.seek_relative(5).unwrap();
    assert_eq!(reader.pos(), 5);
    assert_eq!(reader.buffer().len(), 13);
    assert_eq!(reader.get_ref().position(), 13);

    // Backward inside retained consumed data only moves the read position
    let mut reader = reader_with_buffered(data, 0, 13);
    reader.consume(7);
    reader.seek_relative(-5).unwrap();
    assert_eq!(reader.pos(), 2);
    assert_eq!(reader.buffer().len(), 13);
    assert_eq!(reader.get_ref().position(), 13);

    // Forward outside unconsumed buffered data falls back to seeking
    let mut reader = reader_with_buffered(data, 0, 5);
    reader.consume(3);
    reader.seek_relative(5).unwrap();
    assert_eq!(reader.get_ref().position(), 8);
    assert_eq!(reader.pos(), 0);
    assert_eq!(reader.buffer().len(), 0);

    // Backward outside retained consumed data falls back to seeking
    let mut reader = reader_with_buffered(data, 7, 13);
    reader.consume(1);
    reader.seek_relative(-2).unwrap();
    assert_eq!(reader.get_ref().position(), 6);
    assert_eq!(reader.pos(), 0);
    assert_eq!(reader.buffer().len(), 0);
}

#[test]
fn test_reader_new() {
    let cur = Cursor::<&str>::default();
    let reader = Reader::new(cur);
    assert_eq!(reader.capacity(), CHUNK_SIZE);
    assert_eq!(reader.max_capacity(), DEFAULT_MAX_CAPACITY);
    let (inner, buffer) = reader.into_parts();
    assert_eq!(buffer, Buffer::default());
    assert_eq!(inner, Cursor::default());
}

#[test]
fn test_reader_builder() {
    // A default reader from the builder
    let cur = Cursor::<&str>::default();
    let reader = Reader::builder(cur).build();
    assert_eq!(reader.capacity(), CHUNK_SIZE);
    assert_eq!(reader.max_capacity(), DEFAULT_MAX_CAPACITY);
    let (inner, buffer) = reader.into_parts();
    assert_eq!(buffer, Buffer::default());
    assert_eq!(inner, Cursor::default());

    // A custom initial capacity rounds up linearly
    let cur = Cursor::<&str>::default();
    let initial_capacity = 2 * CHUNK_SIZE + 123;
    let reader = Reader::builder(cur)
        .initial_capacity(initial_capacity)
        .build();
    assert_eq!(reader.capacity(), 3 * CHUNK_SIZE);
    assert_eq!(reader.max_capacity(), DEFAULT_MAX_CAPACITY);
    let (inner, buffer) = reader.into_parts();
    assert_eq!(buffer, Buffer::default());
    assert_eq!(inner, Cursor::default());

    // A custom max capacity rounds up exponentially
    let cur = Cursor::<&str>::default();
    let max_capacity = 4 * CHUNK_SIZE + 123;
    let reader = Reader::builder(cur).max_capacity(max_capacity).build();
    assert_eq!(reader.capacity(), CHUNK_SIZE);
    assert_eq!(reader.max_capacity(), 8 * CHUNK_SIZE);
    let (inner, buffer) = reader.into_parts();
    assert_eq!(buffer, Buffer::default());
    assert_eq!(inner, Cursor::default());

    // Both
    let cur = Cursor::<&str>::default();
    let reader = Reader::builder(cur)
        .initial_capacity(initial_capacity)
        .max_capacity(max_capacity)
        .build();
    assert_eq!(reader.capacity(), 3 * CHUNK_SIZE);
    assert_eq!(reader.max_capacity(), 8 * CHUNK_SIZE);
    let (inner, buffer) = reader.into_parts();
    assert_eq!(buffer, Buffer::default());
    assert_eq!(inner, Cursor::default());

    // A max capacity below the initial capacity is raised to match it
    let cur = Cursor::<&str>::default();
    let reader = Reader::builder(cur)
        .initial_capacity(initial_capacity)
        .max_capacity(CHUNK_SIZE)
        .build();
    assert_eq!(reader.capacity(), 3 * CHUNK_SIZE);
    assert_eq!(reader.max_capacity(), 3 * CHUNK_SIZE);
    let (inner, buffer) = reader.into_parts();
    assert_eq!(buffer, Buffer::default());
    assert_eq!(inner, Cursor::default());
}

#[test]
fn test_reader_into_parts() {
    let data = "Hello, World!";
    let cur = Cursor::new(data);
    let mut reader = Reader::new(cur);
    reader.fill_exact(5).unwrap();
    let (inner_reader, buffer) = reader.into_parts();

    let mut expected_cur = Cursor::new(data);
    expected_cur.consume(5);
    let expected_buffer = buffer_holding(&data.as_bytes()[..5]);

    assert_eq!(inner_reader, expected_cur);
    assert_eq!(buffer, expected_buffer);
}

#[test]
fn test_reader_get_ref() {
    let data = "Hello, World!";
    let cur = Cursor::new(data);
    let mut reader = Reader::new(cur);
    reader.fill_exact(5).unwrap();
    let inner_reader = reader.get_ref();
    assert_eq!(inner_reader.position(), 5);
    assert_eq!(reader.buffer().len(), 5);
}

#[test]
fn test_reader_get_mut() {
    let data = "Hello, World!";
    let cur = Cursor::new(data);
    let mut reader = Reader::new(cur);
    reader.fill_exact(5).unwrap(); // Hello
    {
        let inner_reader = reader.get_mut();
        inner_reader.set_position(7); // skips the comma and space
    }
    reader.fill_exact(5).unwrap(); // World
    assert_eq!(reader.buffer().len(), 10);
    assert_eq!(reader.buffer(), b"HelloWorld");
}

#[test]
fn test_reader_take_buffer() {
    // Taking from a fresh reader yields a default buffer and leaves a default buffer behind
    let cur = Cursor::<&str>::default();
    let mut reader = Reader::new(cur);
    let taken = reader.take_buffer();
    assert_eq!(taken, Buffer::default());
    assert_eq!(reader.buffer(), b"");
    assert_eq!(reader.pos(), 0);

    // Taking preserves buffered data and cursor in the taken buffer
    let data = "Hello, World!";
    let cur = Cursor::new(data);
    let mut reader = Reader::new(cur);
    reader.fill_exact(5).unwrap();
    reader.consume(2);

    let mut expected_taken = buffer_holding(&data.as_bytes()[..5]);
    expected_taken.consume(2);

    let taken = reader.take_buffer();
    assert_eq!(taken, expected_taken);
    assert_eq!(reader.buffer(), b"");
    assert_eq!(reader.pos(), 0);
    assert_eq!(reader.capacity(), CHUNK_SIZE);
    let (_, rest) = reader.into_parts();
    assert_eq!(rest, Buffer::default());
}

#[test]
fn test_reader_max_capacity() {
    let data = "Hello, World!";
    let cur = Cursor::new(data);
    let reader = Reader::new(cur);
    assert_eq!(reader.max_capacity(), DEFAULT_MAX_CAPACITY);

    let cur = Cursor::new(data);
    let reader = Reader::builder(cur).max_capacity(4 * CHUNK_SIZE).build();
    assert_eq!(reader.max_capacity(), 4 * CHUNK_SIZE);
}

#[test]
fn test_reader_peek() {
    let cur = Cursor::<&str>::default();
    let reader = Reader::new(cur);
    let slice = reader.peek(5);
    assert_eq!(slice, &[]);

    let data = "Hello, World!";
    let mut reader = reader_with_buffered(data, 0, 5);

    let slice1 = reader.peek(5);
    let slice2 = reader.peek(10);
    let slice3 = reader.peek(0);
    assert_eq!(slice1, &data.as_bytes()[..5]);
    assert_eq!(slice2, &data.as_bytes()[..5]);
    assert_eq!(slice3, &[]);

    reader.consume(5);
    reader.fill().unwrap();
    assert_eq!(reader.pos(), 5);

    let slice = reader.peek(data.len() - 5);
    assert_eq!(slice, &data.as_bytes()[5..]);
}

#[test]
fn test_reader_peek_behind() {
    let cur = Cursor::<&str>::default();
    let reader = Reader::new(cur);
    let slice = reader.peek_behind(5);
    assert_eq!(slice, &[]);

    let data = "Hello, World!";
    let cur = Cursor::new(data);
    let mut reader = Reader::new(cur);
    reader.fill().unwrap();
    reader.consume(5);

    let slice1 = reader.peek_behind(5);
    let slice2 = reader.peek_behind(10);
    let slice3 = reader.peek_behind(0);
    assert_eq!(slice1, &data.as_bytes()[..5]);
    assert_eq!(slice2, &data.as_bytes()[..5]);
    assert_eq!(slice3, &[]);

    reader.consume(data.len() - 5);
    assert_eq!(reader.pos(), data.len());

    let slice1 = reader.peek_behind(6);
    let slice2 = reader.peek_behind(data.len());
    assert_eq!(slice1, &data.as_bytes()[data.len() - 6..]);
    assert_eq!(slice2, data.as_bytes());
}

#[test]
fn test_reader_ensure_fill_within_max_capacity() {
    let cur = Cursor::<&str>::default();
    let reader = Reader::builder(cur).max_capacity(4 * CHUNK_SIZE).build();
    assert_eq!(reader.max_capacity(), 4 * CHUNK_SIZE);

    // An empty buffer may fill exactly to max_capacity
    reader
        .ensure_fill_within_max_capacity(4 * CHUNK_SIZE)
        .unwrap();

    // A request beyond max_capacity is rejected
    let err = reader
        .ensure_fill_within_max_capacity(4 * CHUNK_SIZE + 1)
        .unwrap_err();
    assert_eq!(err.kind(), ErrorKind::InvalidInput);

    // A reader with CHUNK_SIZE + 123 bytes buffered
    let zeros = vec![0u8; CHUNK_SIZE + 123];
    let cur = Cursor::new(zeros.as_slice());
    let mut reader = Reader::builder(cur)
        .initial_capacity(2 * CHUNK_SIZE)
        .max_capacity(4 * CHUNK_SIZE)
        .build();
    reader.fill_exact(CHUNK_SIZE + 123).unwrap();
    let remaining = reader.max_capacity() - reader.buffer().len();
    assert_eq!(reader.buffer().len(), CHUNK_SIZE + 123);

    // A non-aligned buffer length may fill the exact remaining amount
    reader.ensure_fill_within_max_capacity(remaining).unwrap();

    // Anything beyond the exact remaining amount is rejected
    let err = reader
        .ensure_fill_within_max_capacity(remaining + 1)
        .unwrap_err();
    assert_eq!(err.kind(), ErrorKind::InvalidInput);
}

#[test]
fn test_reader_fill_amount() {
    let data = "A".repeat(5 * CHUNK_SIZE);
    let cur = Cursor::new(&data);
    let mut reader = Reader::builder(cur).max_capacity(4 * CHUNK_SIZE).build();

    let len = reader.fill_amount(10).unwrap();
    assert!(len >= 10);

    let err = reader.fill_amount(4 * CHUNK_SIZE).unwrap_err();
    assert_eq!(err.kind(), ErrorKind::InvalidInput);

    let cur = Cursor::new(&data);
    let mut reader = Reader::builder(cur).max_capacity(4 * CHUNK_SIZE).build();
    let len = reader.fill_amount(4 * CHUNK_SIZE).unwrap();
    assert_eq!(len, 4 * CHUNK_SIZE);
}

#[test]
fn test_reader_fill_exact() {
    let data = "A".repeat(5 * CHUNK_SIZE);
    let cur = Cursor::new(&data);
    let mut reader = Reader::builder(cur).max_capacity(4 * CHUNK_SIZE).build();

    reader.fill_exact(10).unwrap();
    assert_eq!(reader.buffer().len(), 10);

    let err = reader.fill_exact(4 * CHUNK_SIZE).unwrap_err();
    assert_eq!(err.kind(), ErrorKind::InvalidInput);

    reader.fill_exact(4 * CHUNK_SIZE - 10).unwrap();
    assert_eq!(reader.buffer().len(), reader.max_capacity());
}
