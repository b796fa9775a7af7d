//! The buffered reader and its builder.

use crate::buffer::{
    delivered, direct_event, ended, grown_by_rule, lemma_to_end_events, to_end_events, lemma_delivered_append, lemma_delivered_one, lemma_round_linear_within,
    log_extends, one_read, reads_since, reserved_cap, Buffer, BufferView, ReadEvent, READ_RETRIES,
};
use crate::capacity::{
    lemma_round_linear, round_exponential, round_linear, valid_capacity, CHUNK_SIZE,
    DEFAULT_MAX_CAPACITY,
};
use crate::error::ReadError;
use crate::search::{encode_char, lemma_occurs_single, occurs};
use crate::source::{
    read_into, read_to_end_into, read_vectored_into, seek_to, stream_position_of, utf8_str, SeekPos,
};
use vstd::prelude::*;
use vstd::utf8::{decode_utf8, encode_scalar, encode_utf8, encode_utf8_decode_utf8, valid_utf8};

verus! {

/// The capacity a reader's buffer starts with, given the requested initial capacity.
pub open spec fn built_capacity(initial: Option<usize>) -> int {
    match initial {
        Some(cap) => round_linear(cap as int),
        None => CHUNK_SIZE as int,
    }
}

/// The maximum capacity of a reader, given the requested initial and maximum capacities: the
/// requested maximum rounded up exponentially (or the default), raised to the initial
/// capacity if that is larger.
pub open spec fn built_max_capacity(initial: Option<usize>, max: Option<usize>) -> int {
    let m = match max {
        Some(cap) => round_exponential(cap as int),
        None => DEFAULT_MAX_CAPACITY as int,
    };
    if m >= built_capacity(initial) { m } else { built_capacity(initial) }
}

/// `after` is `before` with its first `k` bytes replaced by the first `k` bytes of `src`.
pub open spec fn copied_into(after: Seq<u8>, before: Seq<u8>, src: Seq<u8>, k: int) -> bool {
    after == src.subrange(0, k) + before.subrange(k, before.len() as int)
}

/// The logical stream position of a reader whose buffer is in state `v` and whose source is
/// at `inner_pos`: the source is ahead by the unconsumed bytes.
pub open spec fn logical_pos(inner_pos: int, v: BufferView) -> int {
    inner_pos - v.unconsumed().len()
}

/// The bytes of a list of buffers, one after the other.
pub open spec fn joined(bufs: Seq<Vec<u8>>) -> Seq<u8>
    decreases bufs.len(),
{
    if bufs.len() == 0 {
        Seq::empty()
    } else {
        joined(bufs.drop_last()) + bufs.last()@
    }
}

/// Every buffer of `after` has the length of the corresponding one of `before`.
pub open spec fn same_shape(after: Seq<Vec<u8>>, before: Seq<Vec<u8>>) -> bool {
    &&& after.len() == before.len()
    &&& forall|i: int| 0 <= i < before.len() ==> #[trigger] after[i]@.len() == before[i]@.len()
}

/// A prefix of a list of buffers joins to no more bytes than the whole list.
proof fn lemma_joined_prefix_len(bufs: Seq<Vec<u8>>, n: int)
    requires
        0 <= n <= bufs.len(),
    ensures
        joined(bufs.take(n)).len() <= joined(bufs).len(),
    decreases bufs.len() - n,
{
    if n < bufs.len() {
        lemma_joined_prefix_len(bufs, n + 1);
        assert(bufs.take(n + 1).drop_last() =~= bufs.take(n));
    } else {
        assert(bufs.take(n) =~= bufs);
    }
}

/// The text held after [`append_checked`] with `bytes` read, the read having succeeded when
/// `read_ok`: the old text followed by the decoded bytes if they are valid UTF-8 and either
/// the read succeeded or the old text was empty; otherwise the old text.
pub open spec fn checked_text(old_text: Seq<char>, bytes: Seq<u8>, read_ok: bool) -> Seq<char> {
    if valid_utf8(bytes) && (read_ok || old_text.len() == 0) {
        old_text + decode_utf8(bytes)
    } else {
        old_text
    }
}

/// Appends `bytes`, the outcome `ret` of reading them, to `buf` as text, the way
/// `std::io::Read::read_to_string` does. Bytes that are not valid UTF-8 leave `buf` as it is
/// and give `InvalidUtf8`, or the read's own error if it failed. Valid bytes are appended and
/// their number returned; if the read failed they are appended only to an empty `buf`, and
/// the read's error is returned.
pub fn append_checked(buf: &mut String, bytes: &[u8], ret: Result<usize, ReadError>) -> (res: Result<usize, ReadError>)
    ensures
        final(buf)@ == checked_text(old(buf)@, bytes@, ret is Ok),
        ret is Ok && valid_utf8(bytes@) ==> (res matches Ok(n) && n == bytes@.len()),
        ret is Ok && !valid_utf8(bytes@) ==> (res matches Err(e) && e is InvalidUtf8),
        ret is Err ==> res == ret,
{
    let was_empty = buf.as_str().is_empty();
    match utf8_str(bytes) {
        None => match ret {
            Err(e) => Err(e),
            Ok(_) => Err(ReadError::InvalidUtf8),
        },
        Some(text) => {
            proof { encode_utf8_decode_utf8(text@); }
            match ret {
                Ok(_) => {
                    buf.append(text);
                    Ok(bytes.len())
                },
                Err(e) => {
                    if was_empty {
                        buf.append(text);
                    }
                    Err(e)
                },
            }
        },
    }
}

/// Where a read of the reader takes its bytes from.
#[derive(Clone, Copy, Debug, PartialEq, Eq, Structural)]
pub enum ReadPath {
    /// From the unconsumed bytes already buffered; the source is not asked.
    Buffered,
    /// From the source, straight into the caller's room; the buffer is cleared.
    Direct,
    /// From the buffer after clearing it and refilling its whole capacity with one read.
    Refill,
}

/// The path a read takes with `unconsumed` bytes buffered, `room` bytes of room in the
/// caller's buffers and a buffer of capacity `cap`: the buffered bytes while there are any;
/// otherwise straight from the source when the room is at least the capacity, since buffering
/// would only add a copy; otherwise through a refill.
pub open spec fn read_path_spec(unconsumed: int, room: int, cap: int) -> ReadPath {
    if unconsumed > 0 {
        ReadPath::Buffered
    } else if room >= cap {
        ReadPath::Direct
    } else {
        ReadPath::Refill
    }
}

/// The path a read takes; see [`read_path_spec`].
pub fn read_path(unconsumed: usize, room: usize, cap: usize) -> (p: ReadPath)
    ensures
        p == read_path_spec(unconsumed as int, room as int, cap as int),
{
    if unconsumed > 0 {
        ReadPath::Buffered
    } else if room >= cap {
        ReadPath::Direct
    } else {
        ReadPath::Refill
    }
}

/// What [`Reader::read_exact`] does after one read.
#[derive(Clone, Copy, Debug, PartialEq, Eq, Structural)]
pub enum ExactStep {
    /// The read placed this many bytes; go on after them.
    Advance(usize),
    /// The read was interrupted; make it again.
    Retry,
}

/// The decision [`Reader::read_exact`] takes on the outcome of one read that was handed
/// `remaining` bytes of room, with `retries` interrupted reads in a row still allowed: a read
/// of no bytes means the source ended (`UnexpectedEof`), a read of some bytes advances by
/// them, a count larger than the room (which only a source reading straight into the room
/// can report) counts as filling it, an interrupted read is made again while retries remain,
/// and any other error is returned as it is.
pub fn exact_step(outcome: Result<usize, ReadError>, remaining: usize, retries: u64) -> (step: Result<ExactStep, ReadError>)
    requires
        remaining > 0,
    ensures
        match outcome {
            Ok(n) => if n == 0 {
                step matches Err(e) && e is UnexpectedEof
            } else if n <= remaining {
                step == Ok::<ExactStep, ReadError>(ExactStep::Advance(n))
            } else {
                step == Ok::<ExactStep, ReadError>(ExactStep::Advance(remaining))
            },
            Err(e) => if e is Interrupted && retries > 0 {
                step == Ok::<ExactStep, ReadError>(ExactStep::Retry)
            } else {
                step == Err::<ExactStep, ReadError>(e)
            },
        },
{
    match outcome {
        Ok(n) => if n == 0 {
            Err(ReadError::UnexpectedEof)
        } else if n <= remaining {
            Ok(ExactStep::Advance(n))
        } else {
            Ok(ExactStep::Advance(remaining))
        },
        Err(ReadError::Interrupted(e)) => if retries > 0 {
            Ok(ExactStep::Retry)
        } else {
            Err(ReadError::Interrupted(e))
        },
        Err(e) => Err(e),
    }
}

/// The smaller of two lengths.
pub open spec fn min_len(a: int, b: int) -> int {
    if a <= b { a } else { b }
}

/// Reads made in two stretches are the reads of the first stretch followed by those of the
/// second.
pub proof fn lemma_reads_since_step(l0: Seq<ReadEvent>, l1: Seq<ReadEvent>, l2: Seq<ReadEvent>)
    requires
        log_extends(l1, l0),
        log_extends(l2, l1),
    ensures
        log_extends(l2, l0),
        reads_since(l0, l2) == reads_since(l0, l1) + reads_since(l1, l2),
        delivered(reads_since(l0, l2)) == delivered(reads_since(l0, l1)) + delivered(reads_since(l1, l2)),
{
    assert(l2.subrange(0, l0.len() as int) =~= l2.subrange(0, l1.len() as int).subrange(0, l0.len() as int));
    assert(reads_since(l0, l2) =~= reads_since(l0, l1) + reads_since(l1, l2)) by {
        assert forall|i: int| l0.len() <= i < l1.len() implies l2[i] == l1[i] by {
            assert(l2.subrange(0, l1.len() as int)[i] == l2[i]);
        }
    }
    lemma_delivered_append(reads_since(l0, l1), reads_since(l1, l2));
}

/// A builder for a [`Reader`] with custom capacity settings.
///
/// The initial capacity is rounded up to a chunk boundary, the maximum capacity up to a
/// power-of-two number of chunks; a maximum below the initial capacity is raised to match it.
#[derive(Debug, Clone)]
pub struct ReaderBuilder<R> {
    inner: R,
    initial_capacity: Option<usize>,
    max_capacity: Option<usize>,
}

impl<R> ReaderBuilder<R> {
    /// The source the reader will wrap.
    pub closed spec fn source(&self) -> R {
        self.inner
    }

    /// The requested initial capacity, if one was set.
    pub closed spec fn requested_initial(&self) -> Option<usize> {
        self.initial_capacity
    }

    /// The requested maximum capacity, if one was set.
    pub closed spec fn requested_max(&self) -> Option<usize> {
        self.max_capacity
    }

    /// Sets the initial buffer capacity, rounded up to a chunk boundary when the reader is
    /// built.
    pub fn initial_capacity(self, cap: usize) -> (b: Self)
        ensures
            b.source() == self.source(),
            b.requested_initial() == Some(cap),
            b.requested_max() == self.requested_max(),
    {
        ReaderBuilder { initial_capacity: Some(cap), ..self }
    }

    /// Sets the maximum buffer capacity, rounded up to a power-of-two number of chunks when the
    /// reader is built and raised to the initial capacity if smaller.
    pub fn max_capacity(self, cap: usize) -> (b: Self)
        ensures
            b.source() == self.source(),
            b.requested_initial() == self.requested_initial(),
            b.requested_max() == Some(cap),
    {
        ReaderBuilder { max_capacity: Some(cap), ..self }
    }

    /// Builds the reader: an empty buffer of the initial capacity and the maximum capacity.
    pub fn build(self) -> (r: Reader<R>)
        ensures
            r.inv(),
            r.source() == self.source(),
            r@.buffer == BufferView::empty(built_capacity(self.requested_initial()) as nat),
            r@.max_capacity == built_max_capacity(self.requested_initial(), self.requested_max()),
    {
        let buffer = match self.initial_capacity {
            Some(cap) => Buffer::with_capacity(cap),
            None => Buffer::new(),
        };
        let requested = match self.max_capacity {
            Some(cap) => Buffer::cap_up(cap),
            None => DEFAULT_MAX_CAPACITY,
        };
        let cap = buffer.cap();
        let max_capacity = if requested >= cap { requested } else { cap };
        proof {
            buffer.lemma_view_wf();
        }
        Reader { buffer, max_capacity, inner: self.inner, log: Ghost(Seq::empty()) }
    }
}

/// The abstract state of a [`Reader`]: its buffer and its maximum capacity.
pub struct ReaderView {
    pub buffer: BufferView,
    pub max_capacity: nat,
}

/// A buffered reader with a buffer that grows on demand up to a maximum capacity and retains
/// consumed bytes until the caller releases them.
///
/// The methods named after `std::io::Read`, `BufRead` and `Seek` may drop retained consumed
/// bytes when they must synchronize with the source; the fill methods keep them.
///
/// For its contracts the reader keeps a ghost log of the single reads it makes of the source
/// ([`reads`](Self::reads)): what each read got, whether it found the source at its end, was
/// interrupted or failed. The contracts of the reading methods say which reads a call makes and
/// how the bytes they got end up in the buffer or the caller's buffer.
pub struct Reader<R> {
    buffer: Buffer,
    max_capacity: usize,
    inner: R,
    log: Ghost<Seq<ReadEvent>>,
}

impl<R> View for Reader<R> {
    type V = ReaderView;

    closed spec fn view(&self) -> ReaderView {
        ReaderView { buffer: self.buffer@, max_capacity: self.max_capacity as nat }
    }
}

impl<R> Reader<R> {
    /// The reader's consistency: a consistent buffer whose capacity is within the maximum, and
    /// a valid maximum.
    pub closed spec fn inv(&self) -> bool {
        &&& self.buffer.inv()
        &&& self.buffer@.cap <= self.max_capacity
        &&& valid_capacity(self.max_capacity as int)
    }

    /// The source the reader wraps.
    pub closed spec fn source(&self) -> R {
        self.inner
    }

    /// The single reads of the source the reader has made, in order.
    pub closed spec fn reads(&self) -> Seq<ReadEvent> {
        self.log@
    }

    /// What the consistency of a reader says of its view.
    pub proof fn lemma_view_wf(&self)
        requires
            self.inv(),
        ensures
            self@.buffer.wf(),
            self@.buffer.cap <= self@.max_capacity,
            valid_capacity(self@.max_capacity as int),
    {
        self.buffer.lemma_view_wf();
    }

    /// Creates a reader with the default configuration: one chunk of capacity, growing up to
    /// `DEFAULT_MAX_CAPACITY`.
    pub fn new(inner: R) -> (r: Reader<R>)
        ensures
            r.inv(),
            r.source() == inner,
            r@.buffer == BufferView::empty(CHUNK_SIZE as nat),
            r@.max_capacity == DEFAULT_MAX_CAPACITY,
    {
        Reader::builder(inner).build()
    }

    /// Returns a builder for configuring a reader.
    pub fn builder(inner: R) -> (b: ReaderBuilder<R>)
        ensures
            b.source() == inner,
            b.requested_initial() == None::<usize>,
            b.requested_max() == None::<usize>,
    {
        ReaderBuilder { inner, initial_capacity: None, max_capacity: None }
    }

    /// Decomposes the reader into its source and its buffer, with the retained bytes and the
    /// position as they are.
    pub fn into_parts(self) -> (parts: (R, Buffer))
        requires
            self.inv(),
        ensures
            parts.0 == self.source(),
            parts.1.inv(),
            parts.1@ == self@.buffer,
    {
        (self.inner, self.buffer)
    }

    /// The source.
    pub fn get_ref(&self) -> (r: &R)
        ensures
            *r == self.source(),
    {
        &self.inner
    }

    /// The source, mutably. Reading from it directly bypasses the buffered bytes.
    pub fn get_mut(&mut self) -> (r: &mut R)
        ensures
            *r == old(self).source(),
            final(self).source() == *final(r),
            final(self)@ == old(self)@,
            final(self).inv() == old(self).inv(),
    {
        &mut self.inner
    }

    /// Replaces the buffer with a fresh one-chunk buffer and returns the old one.
    pub fn take_buffer(&mut self) -> (taken: Buffer)
        requires
            old(self).inv(),
        ensures
            final(self).inv(),
            taken.inv(),
            taken@ == old(self)@.buffer,
            final(self)@.buffer == BufferView::empty(CHUNK_SIZE as nat),
            final(self)@.max_capacity == old(self)@.max_capacity,
            final(self).source() == old(self).source(),
    {
        let mut taken = Buffer::new();
        std::mem::swap(&mut taken, &mut self.buffer);
        taken
    }

    /// Splits off the consumed bytes as a buffer of their own (shrunk to fit them, position at
    /// their end); the reader keeps the unconsumed bytes at the start of a fresh buffer of the
    /// smallest capacity that holds them.
    pub fn take_consumed(&mut self) -> (taken: Buffer)
        requires
            old(self).inv(),
        ensures
            final(self).inv(),
            taken.inv(),
            taken@ == old(self)@.buffer.consumed_part(),
            final(self)@.buffer == old(self)@.buffer.unconsumed_part(),
            final(self)@.max_capacity == old(self)@.max_capacity,
            final(self).source() == old(self).source(),
    {
        proof {
            self.buffer.lemma_view_wf();
            lemma_round_linear_within((self.buffer@.bytes.len() - self.buffer@.pos) as int, self.buffer@.cap as int);
        }
        self.buffer.take_consumed()
    }

    /// The maximum capacity.
    pub fn max_capacity(&self) -> (m: usize)
        ensures
            m == self@.max_capacity,
    {
        self.max_capacity
    }

    /// Up to `n` unconsumed bytes, without moving the read position.
    pub fn peek(&self, n: usize) -> (s: &[u8])
        requires
            self.inv(),
        ensures
            s@ == self@.buffer.unconsumed().subrange(
                0,
                if n <= self@.buffer.unconsumed().len() { n as int } else { self@.buffer.unconsumed().len() as int },
            ),
    {
        let un = self.buffer.unconsumed();
        let end = if n <= un.len() { n } else { un.len() };
        &un[0..end]
    }

    /// Up to `n` consumed bytes immediately before the read position.
    pub fn peek_behind(&self, n: usize) -> (s: &[u8])
        requires
            self.inv(),
        ensures
            s@ == self@.buffer.consumed().subrange(
                if n <= self@.buffer.pos { self@.buffer.pos - n } else { 0 },
                self@.buffer.pos as int,
            ),
    {
        proof { self.buffer.lemma_view_wf(); }
        let end = self.buffer.pos();
        let start = if n <= end { end - n } else { 0 };
        let all = self.buffer.buf();
        let s = &all[start..end];
        assert(s@ =~= self@.buffer.consumed().subrange(start as int, end as int));
        s
    }

    /// Marks up to `amt` unconsumed bytes as consumed (at most all of them).
    pub fn consume(&mut self, amt: usize)
        requires
            old(self).inv(),
        ensures
            final(self).inv(),
            final(self)@.max_capacity == old(self)@.max_capacity,
            final(self).source() == old(self).source(),
            final(self)@.buffer == old(self)@.buffer.advanced(amt as int),
    {
        self.buffer.consume(amt);
    }

    /// The buffer.
    pub(crate) fn buffer_ref(&self) -> (b: &Buffer)
        ensures
            b@ == self@.buffer,
            self.inv() ==> b.inv(),
    {
        &self.buffer
    }

    /// Shrinks the buffer to the smallest chunk multiple that holds the retained bytes.
    pub(crate) fn shrink_buffer(&mut self)
        requires
            old(self).inv(),
        ensures
            final(self).inv(),
            final(self)@.buffer == old(self)@.buffer.shrunk(),
            final(self)@.buffer.bytes.len() <= final(self)@.buffer.cap <= old(self)@.buffer.cap,
            final(self)@.max_capacity == old(self)@.max_capacity,
            final(self).source() == old(self).source(),
    {
        proof {
            lemma_round_linear(self.buffer@.bytes.len() as int);
            self.buffer.lemma_view_wf();
            lemma_round_linear_within(self.buffer@.bytes.len() as int, self.buffer@.cap as int);
        }
        self.buffer.shrink();
    }

    /// Moves the unconsumed bytes to the start of the buffer.
    pub(crate) fn compact_buffer(&mut self)
        requires
            old(self).inv(),
        ensures
            final(self).inv(),
            final(self)@.buffer == old(self)@.buffer.compacted(),
            final(self)@.max_capacity == old(self)@.max_capacity,
            final(self).source() == old(self).source(),
    {
        self.buffer.compact();
    }

    /// Drops the retained bytes, keeping the capacity.
    pub(crate) fn clear_buffer(&mut self)
        requires
            old(self).inv(),
        ensures
            final(self).inv(),
            final(self)@.buffer == old(self)@.buffer.cleared(),
            final(self)@.max_capacity == old(self)@.max_capacity,
            final(self).source() == old(self).source(),
    {
        self.buffer.clear();
    }

    /// Drops the retained bytes and shrinks to one chunk.
    pub(crate) fn discard_buffer(&mut self)
        requires
            old(self).inv(),
        ensures
            final(self).inv(),
            final(self)@.buffer == old(self)@.buffer.discarded(),
            CHUNK_SIZE <= old(self)@.buffer.cap,
            final(self)@.max_capacity == old(self)@.max_capacity,
            final(self).source() == old(self).source(),
    {
        proof { self.buffer.lemma_view_wf(); }
        self.buffer.discard();
    }

    /// The logical stream position given the source's position `inner_pos`: the source is
    /// ahead of the logical position by the unconsumed bytes. Fails with
    /// `PositionBeforeBuffered` if `inner_pos` is smaller than their number.
    pub fn logical_position(&self, inner_pos: u64) -> (res: Result<u64, ReadError>)
        requires
            self.inv(),
        ensures
            inner_pos >= self@.buffer.unconsumed().len() ==> (res matches Ok(p) && p == logical_pos(inner_pos as int, self@.buffer)),
            inner_pos < self@.buffer.unconsumed().len() ==> (res matches Err(e) && e is PositionBeforeBuffered),
    {
        proof { self.lemma_view_wf(); }
        let unconsumed = (self.buffer.len() - self.buffer.pos()) as u64;
        if inner_pos >= unconsumed {
            Ok(inner_pos - unconsumed)
        } else {
            Err(ReadError::PositionBeforeBuffered)
        }
    }

    /// Succeeds exactly when `amt` more bytes fit within the maximum capacity.
    pub fn ensure_fill_within_max_capacity(&self, amt: usize) -> (res: Result<(), ReadError>)
        requires
            self.inv(),
        ensures
            res is Ok <==> self@.buffer.bytes.len() + amt <= self@.max_capacity,
            res matches Err(e) ==> e is ExceedsMaxCapacity,
    {
        proof { self.buffer.lemma_view_wf(); }
        if amt > self.max_capacity - self.buffer.len() {
            return Err(ReadError::ExceedsMaxCapacity);
        }
        Ok(())
    }
}

impl<R: std::io::Read> Reader<R> {
    /// Performs a single read from the source into the spare room, retrying if interrupted,
    /// without growing. Returns the number of bytes read: 0 if the buffer is full or the source
    /// is at its end.
    pub fn fill(&mut self) -> (res: Result<usize, ReadError>)
        requires
            old(self).inv(),
        ensures
            final(self).inv(),
            final(self)@.max_capacity == old(self)@.max_capacity,
            final(self)@.buffer.cap == old(self)@.buffer.cap,
            match res {
                Ok(n) => final(self)@.buffer.extends(old(self)@.buffer, n as int) && n <= old(self)@.buffer.spare(),
                Err(e) => final(self)@.buffer == old(self)@.buffer && (e is Interrupted || e is Io || e is ReadCountOutOfRange),
            },
            old(self)@.buffer.spare() == 0 ==> (res matches Ok(n) && n == 0) && final(self)@ == old(self)@
                && final(self).source() == old(self).source(),
            log_extends(final(self).reads(), old(self).reads()),
            delivered(reads_since(old(self).reads(), final(self).reads())) == final(self)@.buffer.bytes.subrange(
                old(self)@.buffer.bytes.len() as int,
                final(self)@.buffer.bytes.len() as int,
            ),
            old(self)@.buffer.spare() == 0 ==> final(self).reads() == old(self).reads(),
            old(self)@.buffer.spare() > 0 ==> {
                let ev = reads_since(old(self).reads(), final(self).reads());
                &&& one_read(ev)
                &&& (res matches Ok(n) && n == 0 ==> ended(ev))
                &&& (res matches Ok(n) && n > 0 ==> ev.last() is Got)
            },
    {
        let (res, ev) = self.buffer.fill_logged(&mut self.inner);
        self.record(ev);
        res
    }

    /// Adds the reads `ev` to the log of reads.
    fn record(&mut self, ev: Ghost<Seq<ReadEvent>>)
        ensures
            final(self).reads() == old(self).reads() + ev@,
            final(self)@ == old(self)@,
            final(self).source() == old(self).source(),
            final(self).inv() == old(self).inv(),
            log_extends(final(self).reads(), old(self).reads()),
            reads_since(old(self).reads(), final(self).reads()) == ev@,
    {
        self.log = Ghost(self.log@ + ev@);
        assert((old(self).reads() + ev@).subrange(0, old(self).reads().len() as int) =~= old(self).reads());
        assert(reads_since(old(self).reads(), final(self).reads()) =~= ev@);
    }

    /// Reads bytes into `buf`, as `std::io::Read::read` does. Buffered unconsumed bytes are
    /// copied first and the source is not touched. When none are left the buffer is cleared;
    /// then a `buf` at least as large as the capacity is read into directly, and a smaller one
    /// gets the bytes of one refill of the buffer. Returns the number of bytes placed in `buf`.
    pub fn read(&mut self, buf: &mut [u8]) -> (res: Result<usize, ReadError>)
        requires
            old(self).inv(),
        ensures
            final(self).inv(),
            final(self)@.max_capacity == old(self)@.max_capacity,
            final(self)@.buffer.cap == old(self)@.buffer.cap,
            final(buf)@.len() == old(buf)@.len(),
            !(old(self)@.buffer.unconsumed().len() == 0 && old(buf)@.len() >= old(self)@.buffer.cap)
                ==> (res matches Ok(n) ==> n <= old(buf)@.len()),
            res matches Err(e) ==> (e is Interrupted || e is Io || e is ReadCountOutOfRange),
            old(self)@.buffer.unconsumed().len() > 0 ==> {
                let k = min_len(old(self)@.buffer.unconsumed().len() as int, old(buf)@.len() as int);
                &&& res matches Ok(n) && n == k
                &&& final(self)@.buffer == old(self)@.buffer.advanced(k)
                &&& copied_into(final(buf)@, old(buf)@, old(self)@.buffer.unconsumed(), k)
                &&& final(self).source() == old(self).source()
            },
            old(self)@.buffer.unconsumed().len() == 0 && old(buf)@.len() >= old(self)@.buffer.cap ==>
                final(self)@.buffer == old(self)@.buffer.cleared(),
            old(self)@.buffer.unconsumed().len() == 0 && old(buf)@.len() < old(self)@.buffer.cap ==> match res {
                Ok(k) => {
                    &&& k == min_len(final(self)@.buffer.bytes.len() as int, old(buf)@.len() as int)
                    &&& final(self)@.buffer.pos == k
                    &&& copied_into(final(buf)@, old(buf)@, final(self)@.buffer.bytes, k as int)
                },
                Err(_) => final(self)@.buffer == old(self)@.buffer.cleared(),
            },
            log_extends(final(self).reads(), old(self).reads()),
            res matches Ok(n) ==> old(self)@.buffer.unconsumed() + delivered(reads_since(old(self).reads(), final(self).reads()))
                == final(buf)@.subrange(0, min_len(n as int, old(buf)@.len() as int)) + final(self)@.buffer.unconsumed(),
            res matches Ok(n) && n == 0 && old(buf)@.len() > 0 ==> ended(reads_since(old(self).reads(), final(self).reads())),
            res is Err ==> delivered(reads_since(old(self).reads(), final(self).reads())) == Seq::<u8>::empty(),
    {
        proof { self.lemma_view_wf(); }
        let ghost log0 = self.reads();
        let ghost unc0 = self@.buffer.unconsumed();
        let path = read_path(self.buffer.len() - self.buffer.pos(), buf.len(), self.buffer.cap());
        if path != ReadPath::Buffered {
            self.buffer.clear();
            if path == ReadPath::Direct {
                let len = buf.len();
                let r = read_into(&mut self.inner, buf);
                let ghost e = direct_event(r, buf@, len as int);
                let ghost one: Seq<ReadEvent> = seq![e];
                self.record(Ghost(one));
                proof {
                    lemma_delivered_one(e);
                    assert(unc0 =~= Seq::<u8>::empty());
                    assert(self@.buffer.unconsumed() =~= Seq::<u8>::empty());
                    match r {
                        Ok(n) => {
                            assert(seq![e].last() == e);
                            assert(unc0 + delivered(seq![e]) =~= buf@.subrange(0, min_len(n as int, len as int)) + self@.buffer.unconsumed());
                        },
                        Err(_) => {},
                    }
                }
                return r;
            }
            let ghost cleared = self@.buffer;
            let (res, ev) = self.buffer.fill_logged(&mut self.inner);
            self.record(ev);
            match res {
                Ok(_) => {},
                Err(e) => {
                    return Err(e);
                },
            }
            proof {
                self.lemma_view_wf();
                assert(self@.buffer.unconsumed() =~= self@.buffer.bytes);
                assert(self@.buffer.bytes.subrange(cleared.bytes.len() as int, self@.buffer.bytes.len() as int) =~= self@.buffer.bytes);
                assert(unc0 =~= Seq::<u8>::empty());
            }
        }
        let ghost before = self@.buffer;
        let k = self.buffer.copy_unconsumed_into(buf);
        self.buffer.consume(k);
        proof {
            let d = delivered(reads_since(log0, self.reads()));
            assert(before.unconsumed() == unc0 + d) by {
                if path == ReadPath::Buffered {
                    assert(reads_since(log0, self.reads()) =~= Seq::<ReadEvent>::empty());
                    assert(d =~= Seq::<u8>::empty());
                    assert(unc0 + d =~= unc0);
                } else {
                    assert(unc0 + d =~= d);
                }
            }
            assert(before.unconsumed() =~= buf@.subrange(0, k as int) + self@.buffer.unconsumed());
            if path == ReadPath::Buffered {
                assert(self.reads().subrange(0, log0.len() as int) =~= log0);
            }
        }
        Ok(k)
    }

    /// Reads exactly `buf.len()` bytes into `buf`, as `std::io::Read::read_exact` does. If
    /// enough unconsumed bytes are buffered they are copied and consumed without touching the
    /// source; otherwise reads are repeated until `buf` is full, each outcome handled by
    /// [`exact_step`]: interrupted reads are made again, up to `READ_RETRIES` times in a row.
    /// Fails with `UnexpectedEof` if the source ends first; the bytes read until then are in
    /// `buf`, starting with the unconsumed bytes that were buffered.
    pub fn read_exact(&mut self, buf: &mut [u8]) -> (res: Result<(), ReadError>)
        requires
            old(self).inv(),
        ensures
            final(self).inv(),
            final(self)@.max_capacity == old(self)@.max_capacity,
            final(buf)@.len() == old(buf)@.len(),
            old(self)@.buffer.unconsumed().len() >= old(buf)@.len() ==> {
                &&& res is Ok
                &&& final(buf)@ == old(self)@.buffer.unconsumed().subrange(0, old(buf)@.len() as int)
                &&& final(self)@.buffer == old(self)@.buffer.advanced(old(buf)@.len() as int)
                &&& final(self).source() == old(self).source()
            },
            old(self)@.buffer.unconsumed().len() < old(buf)@.len() ==>
                final(buf)@.subrange(0, old(self)@.buffer.unconsumed().len() as int) == old(self)@.buffer.unconsumed(),
            res matches Err(e) ==> !(e is ExceedsMaxCapacity),
            log_extends(final(self).reads(), old(self).reads()),
            res is Ok ==> final(buf)@ + final(self)@.buffer.unconsumed()
                == old(self)@.buffer.unconsumed() + delivered(reads_since(old(self).reads(), final(self).reads())),
            res matches Err(e) && e is UnexpectedEof ==> ended(reads_since(old(self).reads(), final(self).reads())),
    {
        proof { self.lemma_view_wf(); }
        let ghost unc = self@.buffer.unconsumed();
        let ghost log0 = self.reads();
        proof {
            assert(log0.subrange(0, log0.len() as int) =~= log0);
            assert(reads_since(log0, log0) =~= Seq::<ReadEvent>::empty());
            assert(delivered(Seq::<ReadEvent>::empty()) =~= Seq::<u8>::empty());
        }
        if self.buffer.len() - self.buffer.pos() >= buf.len() {
            let k = self.buffer.copy_unconsumed_into(buf);
            self.buffer.consume(k);
            assert(buf@ =~= unc.subrange(0, k as int));
            assert(buf@ + self@.buffer.unconsumed() =~= unc + delivered(reads_since(log0, self.reads())));
            return Ok(());
        }
        let len = buf.len();
        let mut filled: usize = 0;
        let mut retries: u64 = READ_RETRIES;
        while filled < len
            invariant
                self.inv(),
                self@.max_capacity == old(self)@.max_capacity,
                len == buf@.len(),
                len == old(buf)@.len(),
                unc == old(self)@.buffer.unconsumed(),
                filled <= len,
                unc.len() < len,
                filled > 0 || unc.len() == 0 || self@.buffer.unconsumed() == unc,
                filled > 0 ==> filled >= unc.len() && buf@.subrange(0, unc.len() as int) == unc,
                log0 == old(self).reads(),
                log_extends(self.reads(), log0),
                unc + delivered(reads_since(log0, self.reads())) == buf@.subrange(0, filled as int) + self@.buffer.unconsumed(),
            decreases len - filled, retries,
        {
            let ghost before = buf@;
            let ghost first = filled == 0;
            let ghost log_b = self.reads();
            let ghost unc_b = self@.buffer.unconsumed();
            let ghost mut rest_after: Seq<u8> = Seq::empty();
            let r = {
                let (_head, rest) = buf.split_at_mut(filled);
                let r = self.read(rest);
                proof { rest_after = rest@; }
                r
            };
            proof {
                lemma_reads_since_step(log0, log_b, self.reads());
                assert(buf@ =~= before.subrange(0, filled as int) + rest_after);
            }
            let ghost outcome = r;
            match exact_step(r, len - filled, retries) {
                Ok(ExactStep::Advance(n)) => {
                    proof {
                        if filled > 0 {
                            assert(buf@.subrange(0, unc.len() as int) =~= before.subrange(0, unc.len() as int));
                        } else if unc.len() > 0 {
                            assert(buf@.subrange(0, unc.len() as int) =~= unc);
                        }
                        let m = min_len(outcome->Ok_0 as int, (len - filled) as int);
                        assert(m == n);
                        assert(buf@.subrange(0, filled + n) =~= before.subrange(0, filled as int) + rest_after.subrange(0, m));
                        let d_old = delivered(reads_since(log0, log_b));
                        let d_i = delivered(reads_since(log_b, self.reads()));
                        assert(unc + d_old == before.subrange(0, filled as int) + unc_b);
                        assert(unc_b + d_i == rest_after.subrange(0, m) + self@.buffer.unconsumed());
                        assert(unc + (d_old + d_i) =~= (unc + d_old) + d_i);
                        assert((before.subrange(0, filled as int) + unc_b) + d_i =~= before.subrange(0, filled as int) + (unc_b + d_i));
                        assert(before.subrange(0, filled as int) + (rest_after.subrange(0, m) + self@.buffer.unconsumed())
                            =~= (before.subrange(0, filled as int) + rest_after.subrange(0, m)) + self@.buffer.unconsumed());
                        assert(unc + delivered(reads_since(log0, self.reads())) =~= buf@.subrange(0, filled + n) + self@.buffer.unconsumed());
                    }
                    filled = filled + n;
                    retries = READ_RETRIES;
                },
                Ok(ExactStep::Retry) => {
                    proof {
                        assert(buf@.subrange(0, filled as int) =~= before.subrange(0, filled as int));
                        assert(unc + delivered(reads_since(log0, self.reads())) =~= buf@.subrange(0, filled as int) + self@.buffer.unconsumed());
                    }
                    retries = retries - 1;
                },
                Err(e) => {
                    proof {
                        let ev_all = reads_since(log0, self.reads());
                        let ev_i = reads_since(log_b, self.reads());
                        if ended(ev_i) {
                            assert(ev_all.last() == ev_i.last());
                        }
                    }
                    return Err(e);
                },
            }
        }
        proof { assert(buf@.subrange(0, filled as int) =~= buf@); }
        Ok(())
    }

    /// Appends the unconsumed bytes and then everything the source yields until its end to
    /// `buf`, as `std::io::Read::read_to_end` does; the buffer is cleared. Returns the number of
    /// bytes appended.
    pub fn read_to_end(&mut self, buf: &mut Vec<u8>) -> (res: Result<usize, ReadError>)
        requires
            old(self).inv(),
        ensures
            final(self).inv(),
            final(self)@.max_capacity == old(self)@.max_capacity,
            final(self)@.buffer == old(self)@.buffer.cleared(),
            final(buf)@.len() >= old(buf)@.len() + old(self)@.buffer.unconsumed().len(),
            final(buf)@.subrange(0, (old(buf)@.len() + old(self)@.buffer.unconsumed().len()) as int) == old(buf)@ + old(self)@.buffer.unconsumed(),
            res matches Ok(n) ==> final(buf)@.len() == old(buf)@.len() + n,
            res matches Err(e) ==> e is Io,
            log_extends(final(self).reads(), old(self).reads()),
            final(buf)@ == old(buf)@ + old(self)@.buffer.unconsumed() + delivered(reads_since(old(self).reads(), final(self).reads())),
            res is Ok <==> ended(reads_since(old(self).reads(), final(self).reads())),
    {
        proof { self.lemma_view_wf(); }
        let ghost b0 = buf@;
        let start_len = buf.len();
        let un = self.buffer.unconsumed();
        buf.extend_from_slice(un);
        let ghost b1 = buf@;
        assert(b1 =~= b0 + self@.buffer.unconsumed());
        self.buffer.clear();
        let r = read_to_end_into(&mut self.inner, buf);
        let ghost got = buf@.subrange(b1.len() as int, buf@.len() as int);
        let ghost evs = to_end_events(got, r is Ok);
        self.record(Ghost(evs));
        proof {
            lemma_to_end_events(got, r is Ok);
            assert(buf@ =~= b1 + got);
        }
        match r {
            Ok(n) => {
                assert(buf@.subrange(0, b1.len() as int) == b1);
                Ok(buf.len() - start_len)
            },
            Err(e) => Err(e),
        }
    }

    /// Reads bytes into the buffers in order, as `std::io::Read::read_vectored` does; each
    /// buffer holds at most `u32::MAX` bytes, the most an I/O slice can hold on every platform.
    /// Buffered unconsumed bytes are copied first and the source is not touched. When none are left the
    /// buffer is cleared; then buffers holding at least the capacity in all are read into
    /// directly, and smaller ones get the bytes of one refill of the buffer. Returns the number
    /// of bytes placed in the buffers.
    pub fn read_vectored(&mut self, bufs: &mut Vec<Vec<u8>>) -> (res: Result<usize, ReadError>)
        requires
            old(self).inv(),
            forall|i: int| 0 <= i < old(bufs)@.len() ==> #[trigger] old(bufs)@[i]@.len() <= u32::MAX,
        ensures
            final(self).inv(),
            final(self)@.max_capacity == old(self)@.max_capacity,
            final(self)@.buffer.cap == old(self)@.buffer.cap,
            same_shape(final(bufs)@, old(bufs)@),
            log_extends(final(self).reads(), old(self).reads()),
            old(self)@.buffer.unconsumed().len() > 0 ==> final(self).reads() == old(self).reads(),
            res matches Ok(n) ==> old(self)@.buffer.unconsumed() + delivered(reads_since(old(self).reads(), final(self).reads()))
                == joined(final(bufs)@).subrange(0, min_len(n as int, joined(old(bufs)@).len() as int)) + final(self)@.buffer.unconsumed(),
            res matches Ok(n) && n == 0 && joined(old(bufs)@).len() > 0 ==> ended(reads_since(old(self).reads(), final(self).reads())),
            !(old(self)@.buffer.unconsumed().len() == 0 && joined(old(bufs)@).len() >= old(self)@.buffer.cap)
                ==> (res matches Ok(n) ==> n <= joined(old(bufs)@).len()),
            res matches Err(e) ==> (e is Interrupted || e is Io || e is ReadCountOutOfRange),
            old(self)@.buffer.unconsumed().len() > 0 ==> {
                let k = min_len(old(self)@.buffer.unconsumed().len() as int, joined(old(bufs)@).len() as int);
                &&& res matches Ok(n) && n == k
                &&& final(self)@.buffer == old(self)@.buffer.advanced(k)
                &&& copied_into(joined(final(bufs)@), joined(old(bufs)@), old(self)@.buffer.unconsumed(), k)
                &&& final(self).source() == old(self).source()
            },
            old(self)@.buffer.unconsumed().len() == 0 && joined(old(bufs)@).len() >= old(self)@.buffer.cap ==>
                final(self)@.buffer == old(self)@.buffer.cleared(),
            old(self)@.buffer.unconsumed().len() == 0 && joined(old(bufs)@).len() < old(self)@.buffer.cap ==> match res {
                Ok(k) => {
                    &&& k == min_len(final(self)@.buffer.bytes.len() as int, joined(old(bufs)@).len() as int)
                    &&& final(self)@.buffer.pos == k
                    &&& copied_into(joined(final(bufs)@), joined(old(bufs)@), final(self)@.buffer.bytes, k as int)
                },
                Err(_) => final(self)@.buffer == old(self)@.buffer.cleared(),
            },
    {
        proof { self.lemma_view_wf(); }
        let ghost b0 = bufs@;
        // Does the total length reach the capacity?
        let cap = self.buffer.cap();
        let count = bufs.len();
        let mut total: usize = 0;
        let mut large = false;
        let mut i: usize = 0;
        while i < count
            invariant_except_break
                !large,
                total == joined(b0.take(i as int)).len(),
                total < cap,
            invariant
                count == bufs@.len(),
                bufs@ == b0,
                i <= count,
            ensures
                large ==> i < count && joined(b0.take(i + 1)).len() >= cap,
                !large ==> i == count && total == joined(b0.take(i as int)).len() && total < cap,
            decreases count - i,
        {
            let l = bufs[i].len();
            proof {
                assert(b0.take(i + 1).drop_last() =~= b0.take(i as int));
            }
            if l >= cap - total {
                large = true;
                break;
            }
            total = total + l;
            i = i + 1;
        }
        proof {
            if large {
                lemma_joined_prefix_len(b0, i as int + 1);
            } else {
                assert(b0.take(count as int) =~= b0);
            }
        }
        let room = if large { cap } else { total };
        let ghost log0 = self.reads();
        let ghost unc0 = self@.buffer.unconsumed();
        let path = read_path(self.buffer.len() - self.buffer.pos(), room, cap);
        if path != ReadPath::Buffered {
            self.buffer.clear();
            if path == ReadPath::Direct {
                let r = read_vectored_into(&mut self.inner, bufs);
                let ghost e = direct_event(r, joined(bufs@), joined(b0).len() as int);
                let ghost one: Seq<ReadEvent> = seq![e];
                self.record(Ghost(one));
                proof {
                    lemma_delivered_one(e);
                    assert(unc0 =~= Seq::<u8>::empty());
                    assert(self@.buffer.unconsumed() =~= Seq::<u8>::empty());
                    match r {
                        Ok(n) => {
                            assert(seq![e].last() == e);
                            assert(unc0 + delivered(seq![e]) =~= joined(bufs@).subrange(0, min_len(n as int, joined(b0).len() as int))
                                + self@.buffer.unconsumed());
                        },
                        Err(_) => {},
                    }
                }
                return r;
            }
            let ghost cleared = self@.buffer;
            let (res, ev) = self.buffer.fill_logged(&mut self.inner);
            self.record(ev);
            match res {
                Ok(_) => {},
                Err(e) => {
                    return Err(e);
                },
            }
            proof {
                self.lemma_view_wf();
                assert(self@.buffer.unconsumed() =~= self@.buffer.bytes);
                assert(self@.buffer.bytes.subrange(cleared.bytes.len() as int, self@.buffer.bytes.len() as int) =~= self@.buffer.bytes);
                assert(unc0 =~= Seq::<u8>::empty());
            }
        } else {
            proof { assert(self.reads().subrange(0, self.reads().len() as int) =~= self.reads()); }
        }
        let ghost before = self@.buffer;
        let k = self.copy_unconsumed_into_all(bufs);
        self.buffer.consume(k);
        proof {
            let d = delivered(reads_since(log0, self.reads()));
            assert(before.unconsumed() == unc0 + d) by {
                if path == ReadPath::Buffered {
                    assert(reads_since(log0, self.reads()) =~= Seq::<ReadEvent>::empty());
                    assert(d =~= Seq::<u8>::empty());
                    assert(unc0 + d =~= unc0);
                } else {
                    assert(unc0 + d =~= d);
                }
            }
            assert(joined(bufs@).subrange(0, k as int) =~= before.unconsumed().subrange(0, k as int));
            assert(before.unconsumed() =~= joined(bufs@).subrange(0, k as int) + self@.buffer.unconsumed());
        }
        Ok(k)
    }

    /// Copies as many unconsumed bytes as fit into the buffers, in order, and returns how many.
    fn copy_unconsumed_into_all(&self, bufs: &mut Vec<Vec<u8>>) -> (k: usize)
        requires
            self.inv(),
        ensures
            same_shape(final(bufs)@, old(bufs)@),
            k == min_len(self@.buffer.unconsumed().len() as int, joined(old(bufs)@).len() as int),
            copied_into(joined(final(bufs)@), joined(old(bufs)@), self@.buffer.unconsumed(), k as int),
    {
        let ghost b0 = bufs@;
        let ghost u = self@.buffer.unconsumed();
        proof { self.lemma_view_wf(); }
        let ulen = self.buffer.len() - self.buffer.pos();
        let count = bufs.len();
        let mut off: usize = 0;
        let mut i: usize = 0;
        proof { assert(joined(bufs@.take(0)) =~= u.subrange(0, 0) + joined(b0.take(0)).subrange(0, 0)); }
        while i < count
            invariant
                self.inv(),
                u == self@.buffer.unconsumed(),
                ulen == u.len(),
                count == b0.len(),
                i <= count,
                same_shape(bufs@, b0),
                forall|j: int| i <= j < count ==> #[trigger] bufs@[j] == b0[j],
                off <= ulen,
                off <= joined(b0.take(i as int)).len(),
                off < ulen ==> off == joined(b0.take(i as int)).len(),
                joined(bufs@.take(i as int)) == u.subrange(0, off as int) + joined(b0.take(i as int)).subrange(
                    off as int,
                    joined(b0.take(i as int)).len() as int,
                ),
            decreases count - i,
        {
            let ghost before = bufs@;
            let ghost li = joined(b0.take(i as int)).len();
            let c = {
                let dst = bufs[i].as_mut_slice();
                self.buffer_ref().copy_unconsumed_from(off, dst)
            };
            proof {
                let after = bufs@;
                assert(after.take(i + 1).drop_last() =~= before.take(i as int));
                assert(b0.take(i + 1).drop_last() =~= b0.take(i as int));
                assert(after.take(i + 1).last() == after[i as int]);
                assert(b0.take(i + 1).last() == b0[i as int]);
                assert forall|j: int| 0 <= j < count implies #[trigger] after[j]@.len() == b0[j]@.len() by {
                    if j != i { assert(after[j] == before[j]); }
                }
                assert forall|j: int| i + 1 <= j < count implies #[trigger] after[j] == b0[j] by {
                    assert(after[j] == before[j]);
                }
                let jb = joined(b0.take(i as int));
                let jb1 = joined(b0.take(i + 1));
                assert(jb1 == jb + b0[i as int]@);
                if off < ulen {
                    assert(jb.subrange(off as int, li as int) =~= Seq::<u8>::empty());
                    assert(joined(after.take(i + 1)) =~= u.subrange(0, off + c) + jb1.subrange(off + c, jb1.len() as int));
                } else {
                    assert(c == 0);
                    assert(after[i as int]@ =~= b0[i as int]@);
                    assert(joined(after.take(i + 1)) =~= u.subrange(0, off as int) + jb1.subrange(off as int, jb1.len() as int));
                }
            }
            off = off + c;
            i = i + 1;
        }
        proof {
            assert(bufs@.take(count as int) =~= bufs@);
            assert(b0.take(count as int) =~= b0);
        }
        off
    }

    /// Reads everything up to the source's end, as [`read_to_end`](Self::read_to_end) does,
    /// and appends it to `buf` as text, as `std::io::Read::read_to_string` does; what is done
    /// with the bytes read is [`append_checked`]. If they are not valid UTF-8, fails with
    /// `InvalidUtf8` (or with the source's error, if reading failed) and `buf` is unchanged.
    /// If reading failed on valid bytes, an empty `buf` receives them and a non-empty one stays
    /// unchanged. The buffer is cleared. Returns the number of bytes appended.
    pub fn read_to_string(&mut self, buf: &mut String) -> (res: Result<usize, ReadError>)
        requires
            old(self).inv(),
        ensures
            final(self).inv(),
            final(self)@.max_capacity == old(self)@.max_capacity,
            final(self)@.buffer == old(self)@.buffer.cleared(),
            log_extends(final(self).reads(), old(self).reads()),
            ({
                let ev = reads_since(old(self).reads(), final(self).reads());
                let bytes = old(self)@.buffer.unconsumed() + delivered(ev);
                let read_ok = ended(ev);
                &&& final(buf)@ == checked_text(old(buf)@, bytes, read_ok)
                &&& read_ok && valid_utf8(bytes) ==> (res matches Ok(n) && n == bytes.len())
                &&& read_ok && !valid_utf8(bytes) ==> (res matches Err(e) && e is InvalidUtf8)
                &&& !read_ok ==> (res matches Err(e) && e is Io)
            }),
    {
        let mut bytes: Vec<u8> = Vec::new();
        let ret = self.read_to_end(&mut bytes);
        proof { assert(Seq::<u8>::empty() + old(self)@.buffer.unconsumed() + delivered(reads_since(old(self).reads(), self.reads())) =~= bytes@); }
        append_checked(buf, bytes.as_slice(), ret)
    }

    /// Fills the buffer if all retained bytes are consumed (clearing it first) and returns the
    /// unconsumed bytes, as `std::io::BufRead::fill_buf` does.
    pub fn fill_buf(&mut self) -> (res: Result<&[u8], ReadError>)
        requires
            old(self).inv(),
        ensures
            final(self).inv(),
            final(self)@.max_capacity == old(self)@.max_capacity,
            final(self)@.buffer.cap == old(self)@.buffer.cap,
            old(self)@.buffer.unconsumed().len() > 0 ==> res is Ok && final(self)@ == old(self)@ && final(self).source() == old(self).source(),
            old(self)@.buffer.unconsumed().len() == 0 ==> final(self)@.buffer.pos == 0,
            old(self)@.buffer.unconsumed().len() == 0 && res is Ok ==> final(self)@.buffer.extends(
                old(self)@.buffer.cleared(),
                final(self)@.buffer.bytes.len() as int,
            ),
            old(self)@.buffer.unconsumed().len() == 0 && res is Err ==> final(self)@.buffer == old(self)@.buffer.cleared(),
            res matches Ok(s) ==> s@ == final(self)@.buffer.unconsumed(),
            log_extends(final(self).reads(), old(self).reads()),
            old(self)@.buffer.unconsumed().len() > 0 ==> final(self).reads() == old(self).reads(),
            old(self)@.buffer.unconsumed().len() == 0 ==> {
                let ev = reads_since(old(self).reads(), final(self).reads());
                &&& one_read(ev)
                &&& delivered(ev) == final(self)@.buffer.unconsumed()
                &&& (res matches Ok(s) && s@.len() == 0 ==> ended(ev))
            },
    {
        proof { self.lemma_view_wf(); }
        if self.buffer.pos() >= self.buffer.len() {
            self.buffer.clear();
            let (res, ev) = self.buffer.fill_logged(&mut self.inner);
            self.record(ev);
            proof {
                self.lemma_view_wf();
                assert(self@.buffer.unconsumed() =~= self@.buffer.bytes);
                assert(self@.buffer.bytes.subrange(0, self@.buffer.bytes.len() as int) =~= self@.buffer.bytes);
            }
            match res {
                Ok(_) => {},
                Err(e) => {
                    return Err(e);
                },
            }
        } else {
            proof { assert(self.reads().subrange(0, self.reads().len() as int) =~= self.reads()); }
        }
        Ok(self.buffer.unconsumed())
    }

    /// Reads from the source while `predicate` holds of the unconsumed bytes (it is asked
    /// before each read), growing whenever the buffer is full but never beyond the maximum
    /// capacity. Returns 0 without reading if the predicate fails on the bytes already there;
    /// otherwise stops when it fails, the source ends, or the buffer is full at the maximum
    /// capacity. Returns the number of bytes read.
    pub fn fill_while<P: FnMut(&[u8]) -> bool>(&mut self, predicate: P) -> (res: Result<usize, ReadError>)
        requires
            old(self).inv(),
            forall|s: &[u8]| call_requires(predicate, (s,)),
        ensures
            final(self).inv(),
            final(self)@.max_capacity == old(self)@.max_capacity,
            old(self)@.buffer.cap <= final(self)@.buffer.cap,
            grown_by_rule(old(self)@.buffer.cap as int, final(self)@.buffer.cap as int, old(self)@.max_capacity as int),
            final(self)@.buffer.keeps(old(self)@.buffer),
            res matches Ok(n) ==> final(self)@.buffer.extends(old(self)@.buffer, n as int),
            (forall|s: &[u8], keep: bool| s@ == old(self)@.buffer.unconsumed() && call_ensures(predicate, (s,), keep) ==> !keep)
                ==> (res matches Ok(n) && n == 0) && final(self)@ == old(self)@ && final(self).source() == old(self).source(),
            res matches Err(e) ==> (e is Interrupted || e is Io || e is ReadCountOutOfRange),
            log_extends(final(self).reads(), old(self).reads()),
            delivered(reads_since(old(self).reads(), final(self).reads())) == final(self)@.buffer.bytes.subrange(
                old(self)@.buffer.bytes.len() as int,
                final(self)@.buffer.bytes.len() as int,
            ),
            res is Ok ==> (exists|p: P, s: &[u8]| s@ == final(self)@.buffer.unconsumed() && #[trigger] call_ensures(p, (s,), false))
                || final(self)@.buffer.full_at(old(self)@.max_capacity as int) || ended(reads_since(old(self).reads(), final(self).reads())),
            (forall|p: P, s: &[u8], keep: bool| #[trigger] call_ensures(p, (s,), keep) ==> keep) ==> (res is Ok
                ==> final(self)@.buffer.full_at(old(self)@.max_capacity as int) || ended(reads_since(old(self).reads(), final(self).reads()))),
    {
        let (res, ev) = self.buffer.fill_while_within(&mut self.inner, predicate, self.max_capacity);
        self.record(ev);
        res
    }

    /// Reads until at least `amt` more bytes are retained or the source ends, growing as needed.
    /// Fails with `ExceedsMaxCapacity`, reading nothing, if `amt` more bytes would not fit
    /// within the maximum capacity. Returns the number of bytes read.
    pub fn fill_amount(&mut self, amt: usize) -> (res: Result<usize, ReadError>)
        requires
            old(self).inv(),
        ensures
            final(self).inv(),
            final(self)@.max_capacity == old(self)@.max_capacity,
            (res matches Err(e) && e is ExceedsMaxCapacity) <==> old(self)@.buffer.bytes.len() + amt > old(self)@.max_capacity,
            old(self)@.buffer.bytes.len() + amt > old(self)@.max_capacity ==> final(self)@ == old(self)@
                && final(self).source() == old(self).source(),
            old(self)@.buffer.bytes.len() + amt <= old(self)@.max_capacity ==> {
                &&& final(self)@.buffer.cap == reserved_cap(old(self)@.buffer, amt as int, old(self)@.max_capacity as int)
                &&& final(self)@.buffer.keeps(old(self)@.buffer)
            },
            res matches Ok(n) ==> final(self)@.buffer.extends(old(self)@.buffer, n as int),
            amt == 0 ==> (res matches Ok(n) && n == 0) && final(self).source() == old(self).source(),
            log_extends(final(self).reads(), old(self).reads()),
            delivered(reads_since(old(self).reads(), final(self).reads())) == final(self)@.buffer.bytes.subrange(
                old(self)@.buffer.bytes.len() as int,
                final(self)@.buffer.bytes.len() as int,
            ),
            old(self)@.buffer.bytes.len() + amt > old(self)@.max_capacity || amt == 0 ==> final(self).reads() == old(self).reads(),
            res matches Ok(n) ==> n >= amt || ended(reads_since(old(self).reads(), final(self).reads())),
            old(self)@.buffer.bytes.len() + amt <= old(self)@.max_capacity && amt > 0 ==> final(self).reads().len() > old(self).reads().len(),
    {
        proof { self.lemma_view_wf(); }
        match self.ensure_fill_within_max_capacity(amt) {
            Err(e) => {
                proof { assert(self@.buffer.bytes.subrange(self@.buffer.bytes.len() as int, self@.buffer.bytes.len() as int) =~= Seq::<u8>::empty()); }
                proof { assert(reads_since(self.reads(), self.reads()) =~= Seq::<ReadEvent>::empty()); assert(self.reads().subrange(0, self.reads().len() as int) =~= self.reads()); }
                return Err(e);
            },
            Ok(()) => {},
        }
        let (res, ev) = self.buffer.fill_amount_within(&mut self.inner, amt, self.max_capacity);
        self.record(ev);
        proof { if amt == 0 { assert(self.reads() =~= old(self).reads()); } }
        res
    }

    /// Reads until exactly `amt` more bytes are retained, growing as needed. Fails with
    /// `ExceedsMaxCapacity`, reading nothing, if they would not fit within the maximum
    /// capacity, and with `UnexpectedEof` if the source ends first (the bytes read stay).
    pub fn fill_exact(&mut self, amt: usize) -> (res: Result<(), ReadError>)
        requires
            old(self).inv(),
        ensures
            final(self).inv(),
            final(self)@.max_capacity == old(self)@.max_capacity,
            (res matches Err(e) && e is ExceedsMaxCapacity) <==> old(self)@.buffer.bytes.len() + amt > old(self)@.max_capacity,
            old(self)@.buffer.bytes.len() + amt > old(self)@.max_capacity ==> final(self)@ == old(self)@
                && final(self).source() == old(self).source(),
            old(self)@.buffer.bytes.len() + amt <= old(self)@.max_capacity ==> {
                &&& final(self)@.buffer.cap == reserved_cap(old(self)@.buffer, amt as int, old(self)@.max_capacity as int)
                &&& final(self)@.buffer.keeps(old(self)@.buffer)
            },
            res is Ok <==> final(self)@.buffer.extends(old(self)@.buffer, amt as int),
            final(self)@.buffer.bytes.len() <= old(self)@.buffer.bytes.len() + amt,
            amt == 0 ==> res is Ok && final(self).source() == old(self).source(),
            log_extends(final(self).reads(), old(self).reads()),
            delivered(reads_since(old(self).reads(), final(self).reads())) == final(self)@.buffer.bytes.subrange(
                old(self)@.buffer.bytes.len() as int,
                final(self)@.buffer.bytes.len() as int,
            ),
            old(self)@.buffer.bytes.len() + amt > old(self)@.max_capacity || amt == 0 ==> final(self).reads() == old(self).reads(),
            res matches Err(e) && e is UnexpectedEof ==> ended(reads_since(old(self).reads(), final(self).reads())),
            old(self)@.buffer.bytes.len() + amt <= old(self)@.max_capacity && amt > 0 ==> final(self).reads().len() > old(self).reads().len(),
    {
        proof { self.lemma_view_wf(); }
        match self.ensure_fill_within_max_capacity(amt) {
            Err(e) => {
                proof { assert(self@.buffer.bytes.subrange(self@.buffer.bytes.len() as int, self@.buffer.bytes.len() as int) =~= Seq::<u8>::empty()); }
                proof { assert(reads_since(self.reads(), self.reads()) =~= Seq::<ReadEvent>::empty()); assert(self.reads().subrange(0, self.reads().len() as int) =~= self.reads()); }
                return Err(e);
            },
            Ok(()) => {},
        }
        let (res, ev) = self.buffer.fill_exact_within(&mut self.inner, amt, self.max_capacity);
        self.record(ev);
        proof { if amt == 0 { assert(self.reads() =~= old(self).reads()); } }
        res
    }

    /// Reads until the source ends or the buffer is full at the maximum capacity. Returns the
    /// number of bytes read.
    pub fn fill_to_end(&mut self) -> (res: Result<usize, ReadError>)
        requires
            old(self).inv(),
        ensures
            final(self).inv(),
            final(self)@.max_capacity == old(self)@.max_capacity,
            old(self)@.buffer.cap <= final(self)@.buffer.cap,
            grown_by_rule(old(self)@.buffer.cap as int, final(self)@.buffer.cap as int, old(self)@.max_capacity as int),
            final(self)@.buffer.keeps(old(self)@.buffer),
            res matches Ok(n) ==> final(self)@.buffer.extends(old(self)@.buffer, n as int),
            res matches Err(e) ==> (e is Interrupted || e is Io || e is ReadCountOutOfRange),
            log_extends(final(self).reads(), old(self).reads()),
            delivered(reads_since(old(self).reads(), final(self).reads())) == final(self)@.buffer.bytes.subrange(
                old(self)@.buffer.bytes.len() as int,
                final(self)@.buffer.bytes.len() as int,
            ),
            res is Ok ==> final(self)@.buffer.full_at(old(self)@.max_capacity as int)
                || ended(reads_since(old(self).reads(), final(self).reads())),
            !old(self)@.buffer.full_at(old(self)@.max_capacity as int) ==> final(self).reads().len() > old(self).reads().len(),
    {
        let (res, ev) = self.buffer.fill_to_end_within(&mut self.inner, self.max_capacity);
        self.record(ev);
        res
    }

    /// Reads until `byte` occurs in the unconsumed bytes, the source ends, or the buffer is full
    /// at the maximum capacity. The bytes already there are checked first: if the delimiter is
    /// among them nothing is read. The delimiter stays in the buffer. Returns the number of
    /// bytes read.
    pub fn fill_until(&mut self, byte: u8) -> (res: Result<usize, ReadError>)
        requires
            old(self).inv(),
        ensures
            final(self).inv(),
            final(self)@.max_capacity == old(self)@.max_capacity,
            old(self)@.buffer.cap <= final(self)@.buffer.cap,
            grown_by_rule(old(self)@.buffer.cap as int, final(self)@.buffer.cap as int, old(self)@.max_capacity as int),
            final(self)@.buffer.keeps(old(self)@.buffer),
            res matches Ok(n) ==> final(self)@.buffer.extends(old(self)@.buffer, n as int),
            old(self)@.buffer.unconsumed().contains(byte) ==> (res matches Ok(n) && n == 0) && final(self)@ == old(self)@
                && final(self).source() == old(self).source(),
            res matches Ok(n) && n > 0 ==> !old(self)@.buffer.unconsumed().contains(byte),
            res matches Err(e) ==> (e is Interrupted || e is Io || e is ReadCountOutOfRange),
            log_extends(final(self).reads(), old(self).reads()),
            delivered(reads_since(old(self).reads(), final(self).reads())) == final(self)@.buffer.bytes.subrange(
                old(self)@.buffer.bytes.len() as int,
                final(self)@.buffer.bytes.len() as int,
            ),
            res is Ok ==> final(self)@.buffer.unconsumed().contains(byte) || final(self)@.buffer.full_at(old(self)@.max_capacity as int)
                || ended(reads_since(old(self).reads(), final(self).reads())),
            !old(self)@.buffer.unconsumed().contains(byte) && !old(self)@.buffer.full_at(old(self)@.max_capacity as int)
                ==> final(self).reads().len() > old(self).reads().len(),
    {
        let mut needle: Vec<u8> = Vec::new();
        needle.push(byte);
        proof {
            assert(needle@ =~= seq![byte]);
            lemma_occurs_single(self@.buffer.unconsumed(), byte);
            self.lemma_view_wf();
        }
        let (res, ev) = self.buffer.fill_until_bytes_within(&mut self.inner, needle.as_slice(), self.max_capacity);
        self.record(ev);
        proof { lemma_occurs_single(self@.buffer.unconsumed(), byte); }
        res
    }

    /// Reads until the UTF-8 encoding of `ch` occurs in the unconsumed bytes, the source ends,
    /// or the buffer is full at the maximum capacity; encodings split across reads are found.
    /// The bytes already there are checked first: if the delimiter is among them nothing is
    /// read. The delimiter stays in the buffer. Returns the number of bytes read.
    pub fn fill_until_char(&mut self, ch: char) -> (res: Result<usize, ReadError>)
        requires
            old(self).inv(),
        ensures
            final(self).inv(),
            final(self)@.max_capacity == old(self)@.max_capacity,
            old(self)@.buffer.cap <= final(self)@.buffer.cap,
            grown_by_rule(old(self)@.buffer.cap as int, final(self)@.buffer.cap as int, old(self)@.max_capacity as int),
            final(self)@.buffer.keeps(old(self)@.buffer),
            res matches Ok(n) ==> final(self)@.buffer.extends(old(self)@.buffer, n as int),
            occurs(old(self)@.buffer.unconsumed(), encode_scalar(ch as u32)) ==> (res matches Ok(n) && n == 0) && final(self)@ == old(self)@
                && final(self).source() == old(self).source(),
            res matches Ok(n) && n > 0 ==> !occurs(old(self)@.buffer.unconsumed(), encode_scalar(ch as u32)),
            res matches Err(e) ==> (e is Interrupted || e is Io || e is ReadCountOutOfRange),
            log_extends(final(self).reads(), old(self).reads()),
            delivered(reads_since(old(self).reads(), final(self).reads())) == final(self)@.buffer.bytes.subrange(
                old(self)@.buffer.bytes.len() as int,
                final(self)@.buffer.bytes.len() as int,
            ),
            res is Ok ==> occurs(final(self)@.buffer.unconsumed(), encode_scalar(ch as u32))
                || final(self)@.buffer.full_at(old(self)@.max_capacity as int) || ended(reads_since(old(self).reads(), final(self).reads())),
            !occurs(old(self)@.buffer.unconsumed(), encode_scalar(ch as u32)) && !old(self)@.buffer.full_at(old(self)@.max_capacity as int)
                ==> final(self).reads().len() > old(self).reads().len(),
    {
        let needle = encode_char(ch);
        proof { self.lemma_view_wf(); }
        let (res, ev) = self.buffer.fill_until_bytes_within(&mut self.inner, needle.as_slice(), self.max_capacity);
        self.record(ev);
        res
    }

    /// Reads until the UTF-8 bytes of `needle` occur in the unconsumed bytes, the source ends,
    /// or the buffer is full at the maximum capacity; matches split across reads are found.
    /// The bytes already there are checked first: if the delimiter is among them nothing is
    /// read. The delimiter stays in the buffer. Returns the number of bytes read.
    pub fn fill_until_str(&mut self, needle: &str) -> (res: Result<usize, ReadError>)
        requires
            old(self).inv(),
        ensures
            final(self).inv(),
            final(self)@.max_capacity == old(self)@.max_capacity,
            old(self)@.buffer.cap <= final(self)@.buffer.cap,
            grown_by_rule(old(self)@.buffer.cap as int, final(self)@.buffer.cap as int, old(self)@.max_capacity as int),
            final(self)@.buffer.keeps(old(self)@.buffer),
            res matches Ok(n) ==> final(self)@.buffer.extends(old(self)@.buffer, n as int),
            occurs(old(self)@.buffer.unconsumed(), encode_utf8(needle@)) ==> (res matches Ok(n) && n == 0) && final(self)@ == old(self)@
                && final(self).source() == old(self).source(),
            res matches Ok(n) && n > 0 ==> !occurs(old(self)@.buffer.unconsumed(), encode_utf8(needle@)),
            res matches Err(e) ==> (e is Interrupted || e is Io || e is ReadCountOutOfRange),
            log_extends(final(self).reads(), old(self).reads()),
            delivered(reads_since(old(self).reads(), final(self).reads())) == final(self)@.buffer.bytes.subrange(
                old(self)@.buffer.bytes.len() as int,
                final(self)@.buffer.bytes.len() as int,
            ),
            res is Ok ==> occurs(final(self)@.buffer.unconsumed(), encode_utf8(needle@))
                || final(self)@.buffer.full_at(old(self)@.max_capacity as int) || ended(reads_since(old(self).reads(), final(self).reads())),
            !occurs(old(self)@.buffer.unconsumed(), encode_utf8(needle@)) && !old(self)@.buffer.full_at(old(self)@.max_capacity as int)
                ==> final(self).reads().len() > old(self).reads().len(),
    {
        let bytes = needle.as_bytes();
        proof { self.lemma_view_wf(); }
        let (res, ev) = self.buffer.fill_until_bytes_within(&mut self.inner, bytes, self.max_capacity);
        self.record(ev);
        res
    }
}

/// `pos` is a seek relative to the current position so far back that the offset, less the
/// unconsumed bytes, does not fit in an `i64`.
pub open spec fn seek_underflows(pos: SeekPos, unconsumed: int) -> bool {
    match pos {
        SeekPos::Current(offset) => offset - unconsumed < i64::MIN,
        _ => false,
    }
}

/// The position handed to the source when seeking to `pos` with `unconsumed` bytes buffered
/// and unread: `Start` and `End` as they are, and `Current(offset)` moved back by the
/// unconsumed bytes, so that it is taken from the logical position. If `offset` less the
/// unconsumed bytes does not fit in an `i64`, the result is `Current(-unconsumed)`, the first
/// of two seeks: it brings the source back to the logical position, after which `offset` is
/// handed over as it is.
pub fn seek_target(pos: SeekPos, unconsumed: usize) -> (t: SeekPos)
    requires
        unconsumed <= i64::MAX,
    ensures
        match pos {
            SeekPos::Current(offset) => if offset - unconsumed >= i64::MIN {
                t == SeekPos::Current((offset - unconsumed) as i64)
            } else {
                t == SeekPos::Current(-(unconsumed as int) as i64)
            },
            _ => t == pos,
        },
{
    match pos {
        SeekPos::Current(offset) => {
            let u = unconsumed as i64;
            if offset >= i64::MIN + u {
                SeekPos::Current(offset - u)
            } else {
                SeekPos::Current(-u)
            }
        },
        other => other,
    }
}

impl<R: std::io::Seek> Reader<R> {
    /// The logical stream position: the source's position less the unconsumed bytes. The
    /// buffer is left as it is.
    pub fn stream_position(&mut self) -> (res: Result<u64, ReadError>)
        requires
            old(self).inv(),
        ensures
            final(self).inv(),
            final(self)@ == old(self)@,
            res matches Ok(p) ==> p + old(self)@.buffer.unconsumed().len() <= u64::MAX,
            res matches Err(e) ==> e is Io || e is PositionBeforeBuffered,
    {
        let inner_pos = match stream_position_of(&mut self.inner) {
            Ok(p) => p,
            Err(e) => {
                return Err(e);
            },
        };
        self.logical_position(inner_pos)
    }

    /// Seeks, as `std::io::Seek::seek` does, to a position taken relative to the logical
    /// position: the source is handed [`seek_target`] of `pos` and the unconsumed bytes. The
    /// buffer is cleared after a successful seek and kept after a failed one. If the adjusted
    /// offset would not fit in an `i64`, that first seek brings the source back to the logical
    /// position, the buffer is cleared, and then the offset is handed over as it is.
    pub fn seek(&mut self, pos: SeekPos) -> (res: Result<u64, ReadError>)
        requires
            old(self).inv(),
        ensures
            final(self).inv(),
            final(self)@.max_capacity == old(self)@.max_capacity,
            res is Ok ==> final(self)@.buffer == old(self)@.buffer.cleared(),
            res is Err && !seek_underflows(pos, old(self)@.buffer.unconsumed().len() as int) ==> final(self)@ == old(self)@,
            res is Err && seek_underflows(pos, old(self)@.buffer.unconsumed().len() as int) ==>
                final(self)@ == old(self)@ || final(self)@.buffer == old(self)@.buffer.cleared(),
            res matches Err(e) ==> e is Io,
    {
        proof { self.lemma_view_wf(); }
        let unconsumed = self.buffer.len() - self.buffer.pos();
        let target = seek_target(pos, unconsumed);
        match seek_to(&mut self.inner, target) {
            Ok(p) => {
                self.buffer.clear();
                match pos {
                    SeekPos::Current(offset) => if offset < i64::MIN + (unconsumed as i64) {
                        return seek_to(&mut self.inner, SeekPos::Current(offset));
                    },
                    _ => {},
                }
                Ok(p)
            },
            Err(e) => Err(e),
        }
    }

    /// Seeks relative to the logical position. A target inside the retained bytes, forward
    /// through unconsumed ones or back through consumed ones, only moves the read position and
    /// leaves the source untouched; any other target is handed to [`seek`](Self::seek).
    pub fn seek_relative(&mut self, offset: i64) -> (res: Result<(), ReadError>)
        requires
            old(self).inv(),
        ensures
            final(self).inv(),
            final(self)@.max_capacity == old(self)@.max_capacity,
            -(old(self)@.buffer.pos as int) <= offset <= old(self)@.buffer.unconsumed().len() ==> {
                &&& res is Ok
                &&& final(self)@.buffer == (BufferView { pos: (old(self)@.buffer.pos + offset) as nat, ..old(self)@.buffer })
                &&& final(self).source() == old(self).source()
            },
            !(-(old(self)@.buffer.pos as int) <= offset <= old(self)@.buffer.unconsumed().len()) ==> {
                &&& res is Ok ==> final(self)@.buffer == old(self)@.buffer.cleared()
                &&& res is Err && !seek_underflows(SeekPos::Current(offset), old(self)@.buffer.unconsumed().len() as int) ==> final(self)@ == old(self)@
            },
            res matches Err(e) ==> e is Io,
    {
        proof { self.lemma_view_wf(); }
        let pos = self.buffer.pos();
        let unconsumed = self.buffer.len() - pos;
        if offset >= 0 {
            if (offset as u64) <= (unconsumed as u64) {
                self.buffer.consume(offset as usize);
                return Ok(());
            }
        } else if offset >= -(pos as i64) {
            self.buffer.unconsume((-offset) as usize);
            return Ok(());
        }
        match self.seek(SeekPos::Current(offset)) {
            Ok(_) => Ok(()),
            Err(e) => Err(e),
        }
    }
}

} // verus!
