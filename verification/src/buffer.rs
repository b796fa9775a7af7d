//! A growable byte buffer with chunk-aligned capacity, a read position, and retained consumed
//! bytes.

use crate::capacity::{
    grow_target, growth_target, lemma_growth_target, lemma_round_exponential, lemma_round_linear,
    round_exponential, round_linear, round_up_exponential, round_up_linear, valid_capacity,
    CHUNK_SIZE, MAX_SUPPORTED_CAPACITY,
};
use crate::error::ReadError;
use crate::search::{find_from, lemma_matches_in_prefix, matches_at, occurs};
use crate::source::{read_into, shrink_to_fit};
use vstd::prelude::*;

verus! {

/// How many times in a row a read interrupted by the source is made again (2^64 - 1); a
/// source interrupted once more than that is reported as interrupted.
pub const READ_RETRIES: u64 = 18446744073709551615;

/// A supported length rounds up linearly to no more than any valid capacity that holds it.
pub proof fn lemma_round_linear_within(n: int, cap: int)
    requires
        0 <= n <= cap,
        valid_capacity(cap),
    ensures
        round_linear(n) <= cap,
{
}

/// The growth limit that a fill requested with `limit` uses on a buffer of capacity `cap`:
/// `limit` rounded down to a chunk boundary and to `MAX_SUPPORTED_CAPACITY`, but never below
/// `cap`.
pub open spec fn effective_limit(limit: int, cap: int) -> int {
    let capped = if limit > MAX_SUPPORTED_CAPACITY { MAX_SUPPORTED_CAPACITY as int } else { limit };
    let down = capped / (CHUNK_SIZE as int) * (CHUNK_SIZE as int);
    if down >= cap { down } else { cap }
}

/// A valid limit at least the capacity is used as it is.
pub proof fn lemma_effective_limit(limit: int, cap: int)
    requires
        valid_capacity(limit),
        cap <= limit,
    ensures
        effective_limit(limit, cap) == limit,
{
}

/// The capacity a buffer in state `v` has after making room for `amt` more bytes within
/// `limit`.
pub open spec fn reserved_cap(v: BufferView, amt: int, limit: int) -> nat {
    if v.bytes.len() + amt > v.cap {
        growth_target(v.bytes.len() + amt, limit) as nat
    } else {
        v.cap
    }
}

/// A view extends itself by nothing.
proof fn lemma_extends_refl(v: BufferView)
    ensures
        v.extends(v, 0),
{
    assert(v.bytes.subrange(0, v.bytes.len() as int) =~= v.bytes);
}

/// Extending twice is extending by the sum.
proof fn lemma_extends_trans(a: BufferView, b: BufferView, c: BufferView, m: int, n: int)
    requires
        0 <= m,
        0 <= n,
        b.extends(a, m),
        c.extends(b, n),
    ensures
        c.extends(a, m + n),
{
    assert(c.bytes.subrange(0, a.bytes.len() as int) =~= c.bytes.subrange(0, b.bytes.len() as int).subrange(0, a.bytes.len() as int));
}

/// A capacity of `to` is what growing by the growth rule from `from` gives: either no growth,
/// or, at the last growth, the buffer was full at some capacity `c` of at least `from` and grew
/// to the growth target of `c + 1` bytes within `limit`.
pub open spec fn grown_by_rule(from: int, to: int, limit: int) -> bool {
    to == from || exists|c: int| from <= c < to && to == #[trigger] growth_target(c + 1, limit)
}

/// What a fill loop does before each read.
#[derive(Clone, Copy, Debug, PartialEq, Eq, Structural)]
pub enum FillStep {
    /// Stop filling.
    Stop,
    /// Grow the buffer, then read.
    Grow,
    /// Read into the spare room.
    Read,
}

/// The decision of a fill loop before each read, where `wanted` says whether its condition
/// still asks for more bytes, `len` bytes are retained, the capacity is `cap` and the fill may
/// grow up to `limit`: stop when no more is wanted or the buffer is full at the limit, grow
/// when it is full below the limit, and read otherwise.
pub open spec fn fill_step_spec(wanted: bool, len: int, cap: int, limit: int) -> FillStep {
    if !wanted {
        FillStep::Stop
    } else if len < cap {
        FillStep::Read
    } else if cap >= limit {
        FillStep::Stop
    } else {
        FillStep::Grow
    }
}

/// The decision of a fill loop before each read; see [`fill_step_spec`].
pub fn fill_step(wanted: bool, len: usize, cap: usize, limit: usize) -> (step: FillStep)
    ensures
        step == fill_step_spec(wanted, len as int, cap as int, limit as int),
{
    if !wanted {
        FillStep::Stop
    } else if len < cap {
        FillStep::Read
    } else if cap >= limit {
        FillStep::Stop
    } else {
        FillStep::Grow
    }
}

/// One read of the source as the library saw it.
pub enum ReadEvent {
    /// The read placed these bytes, at least one.
    Got(Seq<u8>),
    /// The read placed no bytes: the source has ended.
    Ended,
    /// The read was interrupted.
    Interrupted,
    /// The read failed, or claimed more bytes than the room it was given.
    Failed,
}

/// The bytes a read placed; none unless it got some.
pub open spec fn bytes_of(e: ReadEvent) -> Seq<u8> {
    match e {
        ReadEvent::Got(b) => b,
        _ => Seq::empty(),
    }
}

/// The bytes a list of reads placed, one read after the other.
pub open spec fn delivered(ev: Seq<ReadEvent>) -> Seq<u8>
    decreases ev.len(),
{
    if ev.len() == 0 {
        Seq::empty()
    } else {
        delivered(ev.drop_last()) + bytes_of(ev.last())
    }
}

/// The last of a list of reads found the source at its end.
pub open spec fn ended(ev: Seq<ReadEvent>) -> bool {
    ev.len() > 0 && ev.last() is Ended
}

/// A list of reads is one read of the source, made again after each interruption: at least
/// one read, and every read but the last was interrupted.
pub open spec fn one_read(ev: Seq<ReadEvent>) -> bool {
    &&& ev.len() > 0
    &&& forall|i: int| 0 <= i < ev.len() - 1 ==> #[trigger] ev[i] is Interrupted
}

/// `after` is the list `before` followed by more reads.
pub open spec fn log_extends(after: Seq<ReadEvent>, before: Seq<ReadEvent>) -> bool {
    &&& after.len() >= before.len()
    &&& after.subrange(0, before.len() as int) == before
}

/// The reads in `after` made since `before`.
pub open spec fn reads_since(before: Seq<ReadEvent>, after: Seq<ReadEvent>) -> Seq<ReadEvent> {
    after.subrange(before.len() as int, after.len() as int)
}

/// The event of one read into a room of `room` bytes of the buffer, whose first bytes now hold
/// `written`: a count within the room got those bytes, a larger one is a failure.
pub open spec fn window_event(outcome: Result<usize, ReadError>, written: Seq<u8>, room: int) -> ReadEvent {
    match outcome {
        Ok(n) => if n == 0 {
            ReadEvent::Ended
        } else if n <= room {
            ReadEvent::Got(written.subrange(0, n as int))
        } else {
            ReadEvent::Failed
        },
        Err(e) => if e is Interrupted {
            ReadEvent::Interrupted
        } else {
            ReadEvent::Failed
        },
    }
}

/// The event of one read straight into a caller's room of `room` bytes, which now holds
/// `written`: a count larger than the room is taken as filling it.
pub open spec fn direct_event(outcome: Result<usize, ReadError>, written: Seq<u8>, room: int) -> ReadEvent {
    match outcome {
        Ok(n) => if n == 0 {
            ReadEvent::Ended
        } else if n <= room {
            ReadEvent::Got(written.subrange(0, n as int))
        } else {
            ReadEvent::Got(written.subrange(0, room))
        },
        Err(e) => if e is Interrupted {
            ReadEvent::Interrupted
        } else {
            ReadEvent::Failed
        },
    }
}

/// The bytes of reads made one after the other are the bytes of each, one after the other.
pub proof fn lemma_delivered_append(a: Seq<ReadEvent>, b: Seq<ReadEvent>)
    ensures
        delivered(a + b) == delivered(a) + delivered(b),
    decreases b.len(),
{
    if b.len() == 0 {
        assert(a + b =~= a);
        assert(delivered(b) =~= Seq::<u8>::empty());
        assert(delivered(a) + delivered(b) =~= delivered(a));
    } else {
        lemma_delivered_append(a, b.drop_last());
        assert((a + b).drop_last() =~= a + b.drop_last());
        assert((a + b).last() == b.last());
        assert(delivered(a) + delivered(b) =~= delivered(a) + delivered(b.drop_last()) + bytes_of(b.last()));
    }
}

/// Adding a read adds its bytes.
pub proof fn lemma_delivered_push(ev: Seq<ReadEvent>, e: ReadEvent)
    ensures
        delivered(ev.push(e)) == delivered(ev) + bytes_of(e),
{
    assert(ev.push(e).drop_last() =~= ev);
    assert(ev.push(e).last() == e);
}

/// Reads made while the buffer went from `start` through `before` to `after` deliver the bytes
/// appended since `start`, when each stretch of reads delivered the bytes of its own stretch.
proof fn lemma_log_step(start: BufferView, before: BufferView, after: BufferView, evs: Seq<ReadEvent>, rev: Seq<ReadEvent>, m: int, n: int)
    requires
        0 <= m,
        0 <= n,
        before.extends(start, m),
        (after == before && n == 0) || after.extends(before, n),
        delivered(evs) == before.bytes.subrange(start.bytes.len() as int, before.bytes.len() as int),
        delivered(rev) == after.bytes.subrange(before.bytes.len() as int, after.bytes.len() as int),
    ensures
        delivered(evs + rev) == after.bytes.subrange(start.bytes.len() as int, after.bytes.len() as int),
        rev.len() > 0 ==> (evs + rev).last() == rev.last() && (evs + rev).len() > 0,
{
    lemma_delivered_append(evs, rev);
    let s0 = start.bytes.len() as int;
    let b0 = before.bytes.len() as int;
    if after == before {
        assert(after.bytes.subrange(0, b0) =~= before.bytes);
    }
    assert(after.bytes.subrange(0, b0) == before.bytes);
    assert forall|i: int| s0 <= i < b0 implies after.bytes[i] == before.bytes[i] by {
        assert(after.bytes.subrange(0, b0)[i] == after.bytes[i]);
    }
    assert(after.bytes.subrange(s0, after.bytes.len() as int) =~= before.bytes.subrange(s0, b0) + after.bytes.subrange(b0, after.bytes.len() as int));
    if rev.len() > 0 {
        assert((evs + rev).last() == rev.last());
    }
}

/// The bytes of a single read.
pub proof fn lemma_delivered_one(e: ReadEvent)
    ensures
        delivered(seq![e]) == bytes_of(e),
{
    assert(seq![e].drop_last() =~= Seq::<ReadEvent>::empty());
    assert(seq![e].last() == e);
    assert(delivered(Seq::<ReadEvent>::empty()) =~= Seq::<u8>::empty());
    assert(delivered(seq![e]) == delivered(Seq::<ReadEvent>::empty()) + bytes_of(e));
    assert(delivered(seq![e]) =~= bytes_of(e));
}

/// The reads of a read to the source's end that got `bytes`: a read that got them (if there
/// are any), then a read that found the end when `ok`, or a failed one.
pub open spec fn to_end_events(bytes: Seq<u8>, ok: bool) -> Seq<ReadEvent> {
    let last = if ok { ReadEvent::Ended } else { ReadEvent::Failed };
    if bytes.len() > 0 {
        seq![ReadEvent::Got(bytes), last]
    } else {
        seq![last]
    }
}

/// A read to the end delivers the bytes it got and ended exactly when it succeeded.
pub proof fn lemma_to_end_events(bytes: Seq<u8>, ok: bool)
    ensures
        delivered(to_end_events(bytes, ok)) == bytes,
        ended(to_end_events(bytes, ok)) == ok,
        to_end_events(bytes, ok).len() > 0,
{
    let last = if ok { ReadEvent::Ended } else { ReadEvent::Failed };
    lemma_delivered_one(last);
    if bytes.len() > 0 {
        lemma_delivered_one(ReadEvent::Got(bytes));
        assert(seq![ReadEvent::Got(bytes), last] =~= seq![ReadEvent::Got(bytes)].push(last));
        lemma_delivered_push(seq![ReadEvent::Got(bytes)], last);
        assert(bytes + Seq::<u8>::empty() =~= bytes);
    } else {
        assert(bytes =~= Seq::<u8>::empty());
    }
}

/// What a reader or a fill does after one read of the source.
#[derive(Clone, Copy, Debug, PartialEq, Eq, Structural)]
pub enum ReadStep {
    /// The read placed this many bytes, at least one and no more than the room it was given.
    Got(usize),
    /// The read placed no bytes: the source has ended.
    Ended,
    /// The read was interrupted; make it again.
    Retry,
}

/// The decision taken on the outcome of one read that was handed `room` bytes of room, with
/// `retries` interrupted reads in a row still allowed: a count of 0 means the source ended, a
/// count within the room is taken, a larger count is refused with `ReadCountOutOfRange`, an
/// interrupted read is made again while retries remain, and any other error is returned as
/// it is.
pub fn after_read(outcome: Result<usize, ReadError>, room: usize, retries: u64) -> (step: Result<ReadStep, ReadError>)
    ensures
        match outcome {
            Ok(n) => if n == 0 {
                step == Ok::<ReadStep, ReadError>(ReadStep::Ended)
            } else if n <= room {
                step == Ok::<ReadStep, ReadError>(ReadStep::Got(n))
            } else {
                step matches Err(e) && e is ReadCountOutOfRange
            },
            Err(e) => if e is Interrupted && retries > 0 {
                step == Ok::<ReadStep, ReadError>(ReadStep::Retry)
            } else {
                step == Err::<ReadStep, ReadError>(e)
            },
        },
{
    match outcome {
        Ok(n) => if n == 0 {
            Ok(ReadStep::Ended)
        } else if n <= room {
            Ok(ReadStep::Got(n))
        } else {
            Err(ReadError::ReadCountOutOfRange)
        },
        Err(ReadError::Interrupted(e)) => if retries > 0 {
            Ok(ReadStep::Retry)
        } else {
            Err(ReadError::Interrupted(e))
        },
        Err(e) => Err(e),
    }
}

/// The abstract state of a [`Buffer`]: the retained bytes, the read position within them (the
/// bytes before it are consumed, those from it on are unconsumed), and the capacity.
#[verifier::ext_equal]
pub struct BufferView {
    pub bytes: Seq<u8>,
    pub pos: nat,
    pub cap: nat,
}

impl BufferView {
    /// The position lies within the retained bytes, which fit in the capacity, which is valid.
    pub open spec fn wf(self) -> bool {
        &&& self.pos <= self.bytes.len() <= self.cap
        &&& valid_capacity(self.cap as int)
    }

    /// The retained bytes before the read position.
    pub open spec fn consumed(self) -> Seq<u8> {
        self.bytes.subrange(0, self.pos as int)
    }

    /// The retained bytes from the read position on.
    pub open spec fn unconsumed(self) -> Seq<u8> {
        self.bytes.subrange(self.pos as int, self.bytes.len() as int)
    }

    /// Room left before the buffer must grow.
    pub open spec fn spare(self) -> int {
        self.cap - self.bytes.len()
    }

    /// `self` holds the bytes of `prev` followed by `n` more, at the same read position.
    pub open spec fn extends(self, prev: BufferView, n: int) -> bool {
        &&& self.bytes.len() == prev.bytes.len() + n
        &&& self.bytes.subrange(0, prev.bytes.len() as int) == prev.bytes
        &&& self.pos == prev.pos
    }

    /// `self` holds the bytes of `prev` followed by zero or more others, at the same position.
    pub open spec fn keeps(self, prev: BufferView) -> bool {
        self.extends(prev, self.bytes.len() - prev.bytes.len())
    }

    /// The state after consuming up to `amt` bytes: the position moves forward by `amt`, but
    /// not past the retained bytes.
    pub open spec fn advanced(self, amt: int) -> BufferView {
        BufferView {
            pos: if amt <= self.bytes.len() - self.pos { (self.pos + amt) as nat } else { self.bytes.len() },
            ..self
        }
    }

    /// The state after moving the position back by up to `amt` bytes, not before the start.
    pub open spec fn rewound(self, amt: int) -> BufferView {
        BufferView { pos: if amt <= self.pos { (self.pos - amt) as nat } else { 0 }, ..self }
    }

    /// The state after dropping all retained bytes; the capacity stays.
    pub open spec fn cleared(self) -> BufferView {
        BufferView::empty(self.cap)
    }

    /// The state after moving the unconsumed bytes to the front; the capacity stays.
    pub open spec fn compacted(self) -> BufferView {
        BufferView { bytes: self.unconsumed(), pos: 0, cap: self.cap }
    }

    /// The state after shrinking to the smallest chunk multiple that holds the retained bytes.
    pub open spec fn shrunk(self) -> BufferView {
        BufferView { cap: round_linear(self.bytes.len() as int) as nat, ..self }
    }

    /// The state after dropping all retained bytes and shrinking to one chunk.
    pub open spec fn discarded(self) -> BufferView {
        BufferView::empty(CHUNK_SIZE as nat)
    }

    /// The buffer split off by `take_consumed`: the consumed bytes, shrunk to fit, with the
    /// position at their end.
    pub open spec fn consumed_part(self) -> BufferView {
        BufferView { bytes: self.consumed(), pos: self.pos, cap: round_linear(self.pos as int) as nat }
    }

    /// The buffer left by `take_consumed`: the unconsumed bytes at the start of the smallest
    /// capacity that holds them.
    pub open spec fn unconsumed_part(self) -> BufferView {
        BufferView {
            bytes: self.unconsumed(),
            pos: 0,
            cap: round_linear(self.bytes.len() - self.pos) as nat,
        }
    }

    /// Every byte of the capacity is retained, and the capacity has reached `limit`.
    pub open spec fn full_at(self, limit: int) -> bool {
        self.bytes.len() == self.cap && self.cap >= limit
    }

    /// An empty buffer of the given capacity.
    pub open spec fn empty(cap: nat) -> BufferView {
        BufferView { bytes: Seq::empty(), pos: 0, cap }
    }
}

/// A growable byte buffer.
///
/// Its capacity is always a whole number of chunks (`CHUNK_SIZE`). Bytes are appended by the
/// fill methods, consumed by moving the read position forward, and kept after consumption until
/// the caller compacts, clears or discards them.
#[derive(Debug, Clone)]
pub struct Buffer {
    data: Vec<u8>,
    len: usize,
    pos: usize,
}

impl View for Buffer {
    type V = BufferView;

    closed spec fn view(&self) -> BufferView {
        BufferView { bytes: self.data@.subrange(0, self.len as int), pos: self.pos as nat, cap: self.data@.len() }
    }
}

impl Buffer {
    /// The buffer's internal consistency; every constructor establishes it and every method
    /// keeps it.
    pub closed spec fn inv(&self) -> bool {
        &&& self.pos <= self.len <= self.data@.len()
        &&& valid_capacity(self.data@.len() as int)
    }

    /// The same retained bytes at the same position, whatever the capacities.
    pub closed spec fn same_state(&self, other: &Buffer) -> bool {
        &&& self.len == other.len
        &&& self.pos == other.pos
        &&& (self.len <= self.data@.len() && other.len <= other.data@.len()) ==> self.data@.subrange(0, self.len as int)
            == other.data@.subrange(0, other.len as int)
    }

    /// For consistent buffers, having the same state is retaining the same bytes at the same
    /// position.
    pub proof fn lemma_same_state(&self, other: &Buffer)
        requires
            self.inv(),
            other.inv(),
        ensures
            self.same_state(other) <==> (self@.bytes == other@.bytes && self@.pos == other@.pos),
    {
        assert(self@.bytes.len() == self.len);
        assert(other@.bytes.len() == other.len);
    }

    /// A consistent buffer has a well-formed view.
    pub proof fn lemma_view_wf(&self)
        requires
            self.inv(),
        ensures
            self@.wf(),
    {
    }

    /// Creates an empty buffer of one chunk.
    pub fn new() -> (b: Buffer)
        ensures
            b.inv(),
            b@ == BufferView::empty(CHUNK_SIZE as nat),
    {
        Buffer { data: vec![0u8; CHUNK_SIZE], len: 0, pos: 0 }
    }

    /// Creates an empty buffer whose capacity is `cap` rounded up linearly to a chunk boundary.
    pub fn with_capacity(cap: usize) -> (b: Buffer)
        ensures
            b.inv(),
            b@ == BufferView::empty(round_linear(cap as int) as nat),
    {
        let c = round_up_linear(cap);
        proof { lemma_round_linear(cap as int); }
        Buffer { data: vec![0u8; c], len: 0, pos: 0 }
    }

    /// Rounds a requested capacity up the way growth does: to a power-of-two number of chunks,
    /// or linearly above `MAX_EXPONENTIAL_CAPACITY`, never beyond `MAX_SUPPORTED_CAPACITY`.
    pub fn cap_up(n: usize) -> (c: usize)
        ensures
            c == round_exponential(n as int),
            valid_capacity(c as int),
            n <= MAX_SUPPORTED_CAPACITY ==> n <= c,
    {
        proof { lemma_round_exponential(n as int); }
        round_up_exponential(n)
    }

    /// The capacity.
    pub fn cap(&self) -> (c: usize)
        ensures
            c == self@.cap,
    {
        self.data.len()
    }

    /// The number of retained bytes.
    pub fn len(&self) -> (n: usize)
        requires
            self.inv(),
        ensures
            n == self@.bytes.len(),
    {
        self.len
    }

    /// The read position: the number of retained bytes already consumed.
    pub fn pos(&self) -> (p: usize)
        ensures
            p == self@.pos,
    {
        self.pos
    }

    /// Whether no bytes are retained.
    pub fn is_empty(&self) -> (b: bool)
        requires
            self.inv(),
        ensures
            b == (self@.bytes.len() == 0),
    {
        self.len == 0
    }

    /// The retained bytes, consumed and unconsumed.
    pub fn buf(&self) -> (s: &[u8])
        requires
            self.inv(),
        ensures
            s@ == self@.bytes,
    {
        &self.data.as_slice()[0..self.len]
    }

    /// The unconsumed bytes.
    pub fn unconsumed(&self) -> (s: &[u8])
        requires
            self.inv(),
        ensures
            s@ == self@.unconsumed(),
    {
        &self.data.as_slice()[self.pos..self.len]
    }

    /// Marks up to `amt` unconsumed bytes as consumed; the position never passes the end of the
    /// retained bytes.
    pub fn consume(&mut self, amt: usize)
        requires
            old(self).inv(),
        ensures
            final(self).inv(),
            final(self)@ == old(self)@.advanced(amt as int),
    {
        if amt <= self.len - self.pos {
            self.pos = self.pos + amt;
        } else {
            self.pos = self.len;
        }
    }

    /// Moves the read position back by up to `amt` bytes, never before the start.
    pub fn unconsume(&mut self, amt: usize)
        requires
            old(self).inv(),
        ensures
            final(self).inv(),
            final(self)@ == old(self)@.rewound(amt as int),
    {
        if amt <= self.pos {
            self.pos = self.pos - amt;
        } else {
            self.pos = 0;
        }
    }

    /// Moves the unconsumed bytes to the front and drops the consumed ones; the position
    /// becomes 0 and the capacity stays.
    pub fn compact(&mut self)
        requires
            old(self).inv(),
        ensures
            final(self).inv(),
            final(self)@ == old(self)@.compacted(),
    {
        let pos = self.pos;
        let n = self.len - pos;
        let ghost d0 = self.data@;
        let mut i: usize = 0;
        while i < n
            invariant
                pos + n <= d0.len() <= MAX_SUPPORTED_CAPACITY,
                i <= n,
                self.data@.len() == d0.len(),
                forall|j: int| 0 <= j < i ==> self.data@[j] == d0[pos + j],
                forall|j: int| i <= j < d0.len() ==> self.data@[j] == d0[j],
            decreases n - i,
        {
            let b = self.data[pos + i];
            self.data.set(i, b);
            i = i + 1;
        }
        self.len = n;
        self.pos = 0;
        assert(self@.bytes =~= d0.subrange(0, (pos + n) as int).subrange(pos as int, (pos + n) as int));
    }

    /// Releases capacity down to the smallest chunk multiple that holds the retained bytes
    /// (at least one chunk); the bytes and the position stay.
    pub fn shrink(&mut self)
        requires
            old(self).inv(),
        ensures
            final(self).inv(),
            final(self)@ == old(self)@.shrunk(),
    {
        let c = round_up_linear(self.len);
        proof {
            lemma_round_linear(self.len as int);
            lemma_round_linear_within(self.len as int, self.data@.len() as int);
        }
        let ghost d0 = self.data@;
        self.data.truncate(c);
        shrink_to_fit(&mut self.data);
        assert(self.data@.subrange(0, self.len as int) =~= d0.subrange(0, self.len as int));
    }

    /// Drops all retained bytes and releases capacity down to one chunk.
    pub fn discard(&mut self)
        requires
            old(self).inv(),
        ensures
            final(self).inv(),
            final(self)@ == old(self)@.discarded(),
    {
        self.clear();
        self.shrink();
    }

    /// Splits off the consumed bytes as a buffer of their own, shrunk to fit them, with its
    /// read position at their end. This buffer keeps the unconsumed bytes, moved to the start
    /// of a fresh allocation of the smallest capacity that holds them.
    pub fn take_consumed(&mut self) -> (taken: Buffer)
        requires
            old(self).inv(),
        ensures
            final(self).inv(),
            taken.inv(),
            taken@ == old(self)@.consumed_part(),
            final(self)@ == old(self)@.unconsumed_part(),
    {
        let pos = self.pos;
        let n = self.len - pos;
        let c = round_up_linear(n);
        proof {
            lemma_round_linear(n as int);
            lemma_round_linear(pos as int);
            lemma_round_linear_within(pos as int, self.data@.len() as int);
        }
        let mut fresh: Vec<u8> = vec![0u8; c];
        let ghost d0 = self.data@;
        let mut i: usize = 0;
        while i < n
            invariant
                self.data@ == d0,
                pos + n <= d0.len() <= MAX_SUPPORTED_CAPACITY,
                n <= c,
                i <= n,
                fresh@.len() == c,
                forall|j: int| 0 <= j < i ==> fresh@[j] == d0[pos + j],
            decreases n - i,
        {
            let b = self.data[pos + i];
            fresh.set(i, b);
            i = i + 1;
        }
        std::mem::swap(&mut self.data, &mut fresh);
        let mut old_data = fresh;
        old_data.truncate(round_up_linear(pos));
        shrink_to_fit(&mut old_data);
        self.len = n;
        self.pos = 0;
        assert(self@.bytes =~= old(self)@.unconsumed());
        let taken = Buffer { data: old_data, len: pos, pos };
        assert(taken@.bytes =~= old(self)@.consumed());
        taken
    }

    /// Grows the capacity to `new_cap`, keeping the bytes and the position.
    fn grow_to(&mut self, new_cap: usize)
        requires
            old(self).inv(),
            valid_capacity(new_cap as int),
            old(self)@.cap <= new_cap,
        ensures
            final(self).inv(),
            final(self)@ == (BufferView { cap: new_cap as nat, ..old(self)@ }),
    {
        let ghost d0 = self.data@;
        self.data.resize(new_cap, 0u8);
        assert(self.data@.subrange(0, self.len as int) =~= d0.subrange(0, self.len as int));
    }

    /// One read of the source into the first `max` bytes of spare room, with `retries`
    /// interrupted reads in a row still allowed; what follows the read is [`after_read`], and
    /// the bytes of a `Got` step are appended. Also gives the read's event.
    fn read_window<R: std::io::Read>(&mut self, src: &mut R, max: usize, retries: u64) -> (out: (Result<ReadStep, ReadError>, Ghost<ReadEvent>))
        requires
            old(self).inv(),
            0 < max <= old(self)@.spare(),
        ensures
            final(self).inv(),
            final(self)@.cap == old(self)@.cap,
            match out.0 {
                Ok(ReadStep::Got(n)) => 0 < n <= max && final(self)@.extends(old(self)@, n as int) && out.1@ is Got,
                Ok(ReadStep::Ended) => final(self)@ == old(self)@ && out.1@ is Ended,
                Ok(ReadStep::Retry) => final(self)@ == old(self)@ && retries > 0 && out.1@ is Interrupted,
                Err(e) => final(self)@ == old(self)@ && (e is Interrupted || e is Io || e is ReadCountOutOfRange)
                    && (out.1@ is Interrupted || out.1@ is Failed),
            },
            bytes_of(out.1@) == final(self)@.bytes.subrange(old(self)@.bytes.len() as int, final(self)@.bytes.len() as int),
    {
        let len = self.len;
        let ghost d0 = self.data@;
        let r = {
            let (_head, rest) = self.data.as_mut_slice().split_at_mut(len);
            let (window, _tail) = rest.split_at_mut(max);
            read_into(src, window)
        };
        assert(self.data@.len() == d0.len());
        assert(self.data@.subrange(0, len as int) == d0.subrange(0, len as int));
        assert(self@.bytes =~= d0.subrange(0, len as int));
        let ghost written = self.data@.subrange(len as int, len + max);
        let ghost ev = window_event(r, written, max as int);
        let step = after_read(r, max, retries);
        match &step {
            Ok(ReadStep::Got(n)) => {
                self.len = len + *n;
                assert(self@.bytes.subrange(0, len as int) =~= d0.subrange(0, len as int));
                assert(bytes_of(ev) =~= self@.bytes.subrange(len as int, self@.bytes.len() as int));
            },
            _ => {
                assert(bytes_of(ev) =~= self@.bytes.subrange(len as int, self@.bytes.len() as int));
            },
        }
        (step, Ghost(ev))
    }

    /// One read of the source into the first `max` bytes of spare room, made again while the
    /// source reports an interruption, up to `READ_RETRIES` times in a row. Also gives the
    /// reads made: one read, after any interrupted ones.
    fn read_retrying<R: std::io::Read>(&mut self, src: &mut R, max: usize) -> (out: (Result<ReadStep, ReadError>, Ghost<Seq<ReadEvent>>))
        requires
            old(self).inv(),
            0 < max <= old(self)@.spare(),
        ensures
            final(self).inv(),
            final(self)@.cap == old(self)@.cap,
            one_read(out.1@),
            delivered(out.1@) == final(self)@.bytes.subrange(old(self)@.bytes.len() as int, final(self)@.bytes.len() as int),
            match out.0 {
                Ok(ReadStep::Got(n)) => 0 < n <= max && final(self)@.extends(old(self)@, n as int) && out.1@.last() is Got,
                Ok(ReadStep::Ended) => final(self)@ == old(self)@ && out.1@.last() is Ended,
                Ok(ReadStep::Retry) => false,
                Err(e) => final(self)@ == old(self)@ && (e is Interrupted || e is Io || e is ReadCountOutOfRange)
                    && (out.1@.last() is Interrupted || out.1@.last() is Failed),
            },
    {
        let mut retries: u64 = READ_RETRIES;
        let ghost mut evs: Seq<ReadEvent> = Seq::empty();
        loop
            invariant
                self.inv(),
                self@ == old(self)@,
                0 < max <= self@.spare(),
                forall|i: int| 0 <= i < evs.len() ==> #[trigger] evs[i] is Interrupted,
                delivered(evs) == Seq::<u8>::empty(),
            decreases retries,
        {
            let (step, ev) = self.read_window(src, max, retries);
            proof {
                lemma_delivered_push(evs, ev@);
                evs = evs.push(ev@);
            }
            match step {
                Ok(ReadStep::Retry) => {
                    retries = retries - 1;
                },
                other => {
                    assert(self@.bytes.subrange(old(self)@.bytes.len() as int, self@.bytes.len() as int) =~= delivered(evs));
                    return (other, Ghost(evs));
                },
            }
        }
    }

    /// Performs a single read from the source into the spare room, made again if interrupted
    /// (up to `READ_RETRIES` times in a row), without growing; the outcome is handled by
    /// [`after_read`]. Returns the number of bytes read: 0 if the buffer is full or the source
    /// is at its end.
    pub fn fill<R: std::io::Read>(&mut self, src: &mut R) -> (res: Result<usize, ReadError>)
        requires
            old(self).inv(),
        ensures
            final(self).inv(),
            final(self)@.cap == old(self)@.cap,
            match res {
                Ok(n) => {
                    &&& final(self)@.extends(old(self)@, n as int)
                    &&& n <= old(self)@.spare()
                },
                Err(e) => final(self)@ == old(self)@ && (e is Interrupted || e is Io || e is ReadCountOutOfRange),
            },
            old(self)@.spare() == 0 ==> (res matches Ok(n) && n == 0) && final(self)@ == old(self)@ && *final(src) == *old(src),
    {
        let (res, _reads) = self.fill_logged(src);
        res
    }

    /// [`fill`](Self::fill), also giving the reads of the source it made: none when the buffer
    /// is full, and otherwise one read (after any interrupted ones) whose bytes are the ones
    /// appended, a count of 0 coming only from a read that found the source at its end.
    pub(crate) fn fill_logged<R: std::io::Read>(&mut self, src: &mut R) -> (out: (Result<usize, ReadError>, Ghost<Seq<ReadEvent>>))
        requires
            old(self).inv(),
        ensures
            final(self).inv(),
            final(self)@.cap == old(self)@.cap,
            match out.0 {
                Ok(n) => {
                    &&& final(self)@.extends(old(self)@, n as int)
                    &&& n <= old(self)@.spare()
                },
                Err(e) => final(self)@ == old(self)@ && (e is Interrupted || e is Io || e is ReadCountOutOfRange),
            },
            delivered(out.1@) == final(self)@.bytes.subrange(old(self)@.bytes.len() as int, final(self)@.bytes.len() as int),
            old(self)@.spare() == 0 ==> (out.0 matches Ok(n) && n == 0) && final(self)@ == old(self)@ && *final(src) == *old(src)
                && out.1@.len() == 0,
            old(self)@.spare() > 0 ==> {
                &&& one_read(out.1@)
                &&& (out.0 matches Ok(n) && n == 0 ==> ended(out.1@))
                &&& (out.0 matches Ok(n) && n > 0 ==> out.1@.last() is Got)
                &&& out.0 is Err ==> (out.1@.last() is Interrupted || out.1@.last() is Failed)
            },
    {
        let spare = self.data.len() - self.len;
        if spare == 0 {
            assert(self@.bytes.subrange(0, self.len as int) =~= self@.bytes);
            proof { assert(delivered(Seq::<ReadEvent>::empty()) =~= Seq::<u8>::empty()); }
            assert(self@.bytes.subrange(self.len as int, self.len as int) =~= Seq::<u8>::empty());
            return (Ok(0), Ghost(Seq::empty()));
        }
        let (step, reads) = self.read_retrying(src, spare);
        match step {
            Ok(ReadStep::Got(n)) => (Ok(n), reads),
            Ok(_) => {
                assert(self@.bytes.subrange(0, self.len as int) =~= self@.bytes);
                (Ok(0), reads)
            },
            Err(e) => (Err(e), reads),
        }
    }

    /// Grows, if needed, so that `amt` more bytes fit: to the growth target of the total, which
    /// is at most `limit`.
    fn reserve_within(&mut self, amt: usize, limit: usize)
        requires
            old(self).inv(),
            valid_capacity(limit as int),
            old(self)@.cap <= limit,
            old(self)@.bytes.len() + amt <= limit,
        ensures
            final(self).inv(),
            final(self)@ == (BufferView { cap: reserved_cap(old(self)@, amt as int, limit as int), ..old(self)@ }),
            old(self)@.bytes.len() + amt <= final(self)@.cap <= limit,
    {
        let required = self.len + amt;
        if required > self.data.len() {
            proof { lemma_growth_target(required as int, limit as int); }
            let target = grow_target(required, limit);
            self.grow_to(target);
        }
    }

    /// Reads from the source until at least `amt` more bytes are retained or the source ends,
    /// growing first so that `amt` more bytes fit. Returns the number of bytes read.
    /// Also gives the reads of the source it made, whose bytes are the ones appended; it stops
    /// short of `amt` bytes only after a read that found the source at its end.
    pub(crate) fn fill_amount_within<R: std::io::Read>(&mut self, src: &mut R, amt: usize, limit: usize) -> (out: (Result<usize, ReadError>, Ghost<Seq<ReadEvent>>))
        requires
            old(self).inv(),
            valid_capacity(limit as int),
            old(self)@.cap <= limit,
            old(self)@.bytes.len() + amt <= limit,
        ensures
            final(self).inv(),
            final(self)@.cap == reserved_cap(old(self)@, amt as int, limit as int),
            final(self)@.cap <= limit,
            final(self)@.keeps(old(self)@),
            out.0 matches Ok(n) ==> final(self)@.extends(old(self)@, n as int),
            amt == 0 ==> (out.0 matches Ok(n) && n == 0) && *final(src) == *old(src) && out.1@.len() == 0,
            out.0 matches Err(e) ==> (e is Interrupted || e is Io || e is ReadCountOutOfRange),
            delivered(out.1@) == final(self)@.bytes.subrange(old(self)@.bytes.len() as int, final(self)@.bytes.len() as int),
            out.0 matches Ok(n) ==> n >= amt || ended(out.1@),
            amt > 0 ==> out.1@.len() > 0,
    {
        self.reserve_within(amt, limit);
        let ghost start = self@;
        proof { lemma_extends_refl(start); }
        let mut total: usize = 0;
        let ghost mut evs: Seq<ReadEvent> = Seq::empty();
        proof {
            assert(delivered(evs) =~= Seq::<u8>::empty());
            assert(self@.bytes.subrange(start.bytes.len() as int, self@.bytes.len() as int) =~= Seq::<u8>::empty());
        }
        while total < amt
            invariant
                delivered(evs) == self@.bytes.subrange(start.bytes.len() as int, self@.bytes.len() as int),
                amt == 0 ==> evs.len() == 0,
                total > 0 ==> evs.len() > 0,
                self.inv(),
                self@.cap == reserved_cap(old(self)@, amt as int, limit as int),
                self@.cap <= limit,
                start.bytes == old(self)@.bytes,
                start.pos == old(self)@.pos,
                self@.extends(start, total as int),
                start.bytes.len() + amt <= self@.cap,
                amt == 0 ==> total == 0 && *src == *old(src),
            decreases self@.spare(),
        {
            let spare = self.data.len() - self.len;
            let ghost before = self@;
            let (step, rev) = self.read_retrying(src, spare);
            proof {
                let k: int = self@.bytes.len() - before.bytes.len();
                lemma_log_step(start, before, self@, evs, rev@, total as int, k);
                evs = evs + rev@;
            }
            match step {
                Ok(ReadStep::Got(n)) => {
                    proof { lemma_extends_trans(start, before, self@, total as int, n as int); }
                    total = total + n;
                },
                Ok(_) => {
                    return (Ok(total), Ghost(evs));
                },
                Err(e) => {
                    return (Err(e), Ghost(evs));
                },
            }
        }
        (Ok(total), Ghost(evs))
    }

    /// Reads from the source until exactly `amt` more bytes are retained, growing first so
    /// that they fit. Fails with `UnexpectedEof` if the source ends first; the bytes read until
    /// then stay in the buffer.
    /// Also gives the reads of the source it made, whose bytes are the ones appended; it fails
    /// with `UnexpectedEof` only after a read that found the source at its end.
    pub(crate) fn fill_exact_within<R: std::io::Read>(&mut self, src: &mut R, amt: usize, limit: usize) -> (out: (Result<(), ReadError>, Ghost<Seq<ReadEvent>>))
        requires
            old(self).inv(),
            valid_capacity(limit as int),
            old(self)@.cap <= limit,
            old(self)@.bytes.len() + amt <= limit,
        ensures
            final(self).inv(),
            final(self)@.cap == reserved_cap(old(self)@, amt as int, limit as int),
            final(self)@.cap <= limit,
            final(self)@.keeps(old(self)@),
            out.0 is Ok <==> final(self)@.extends(old(self)@, amt as int),
            final(self)@.bytes.len() <= old(self)@.bytes.len() + amt,
            amt == 0 ==> out.0 is Ok && *final(src) == *old(src) && out.1@.len() == 0,
            out.0 matches Err(e) ==> !(e is ExceedsMaxCapacity),
            delivered(out.1@) == final(self)@.bytes.subrange(old(self)@.bytes.len() as int, final(self)@.bytes.len() as int),
            out.0 matches Err(e) && e is UnexpectedEof ==> ended(out.1@),
            amt > 0 ==> out.1@.len() > 0,
    {
        self.reserve_within(amt, limit);
        let ghost start = self@;
        proof { lemma_extends_refl(start); }
        let mut total: usize = 0;
        let ghost mut evs: Seq<ReadEvent> = Seq::empty();
        proof {
            assert(delivered(evs) =~= Seq::<u8>::empty());
            assert(self@.bytes.subrange(start.bytes.len() as int, self@.bytes.len() as int) =~= Seq::<u8>::empty());
        }
        while total < amt
            invariant
                delivered(evs) == self@.bytes.subrange(start.bytes.len() as int, self@.bytes.len() as int),
                amt == 0 ==> evs.len() == 0,
                total > 0 ==> evs.len() > 0,
                self.inv(),
                self@.cap == reserved_cap(old(self)@, amt as int, limit as int),
                self@.cap <= limit,
                start.bytes == old(self)@.bytes,
                start.pos == old(self)@.pos,
                self@.extends(start, total as int),
                start.bytes.len() + amt <= self@.cap,
                total <= amt,
                amt == 0 ==> *src == *old(src),
            decreases amt - total,
        {
            let ghost before = self@;
            let (step, rev) = self.read_retrying(src, amt - total);
            proof {
                let k: int = self@.bytes.len() - before.bytes.len();
                lemma_log_step(start, before, self@, evs, rev@, total as int, k);
                evs = evs + rev@;
            }
            match step {
                Ok(ReadStep::Got(n)) => {
                    proof { lemma_extends_trans(start, before, self@, total as int, n as int); }
                    total = total + n;
                },
                Ok(_) => {
                    return (Err(ReadError::UnexpectedEof), Ghost(evs));
                },
                Err(e) => {
                    return (Err(e), Ghost(evs));
                },
            }
        }
        (Ok(()), Ghost(evs))
    }

    /// Reads from the source while `predicate` holds of the unconsumed bytes, checking it
    /// before each read and growing by the growth rule, never beyond `limit`, whenever the
    /// buffer is full. Stops when the predicate fails, the source ends, or the buffer is full at
    /// `limit`. Returns the number of bytes read, and the reads of the source it made, whose
    /// bytes are the ones appended.
    pub(crate) fn fill_while_within<R: std::io::Read, P: FnMut(&[u8]) -> bool>(
        &mut self,
        src: &mut R,
        pred: P,
        limit: usize,
    ) -> (out: (Result<usize, ReadError>, Ghost<Seq<ReadEvent>>))
        requires
            old(self).inv(),
            valid_capacity(limit as int),
            old(self)@.cap <= limit,
            forall|s: &[u8]| call_requires(pred, (s,)),
        ensures
            final(self).inv(),
            old(self)@.cap <= final(self)@.cap <= limit,
            grown_by_rule(old(self)@.cap as int, final(self)@.cap as int, limit as int),
            (forall|s: &[u8], keep: bool| s@ == old(self)@.unconsumed() && call_ensures(pred, (s,), keep) ==> !keep)
                ==> (out.0 matches Ok(n) && n == 0) && final(self)@ == old(self)@ && *final(src) == *old(src) && out.1@.len() == 0,
            final(self)@.keeps(old(self)@),
            out.0 matches Ok(n) ==> final(self)@.extends(old(self)@, n as int),
            out.0 matches Err(e) ==> (e is Interrupted || e is Io || e is ReadCountOutOfRange),
            delivered(out.1@) == final(self)@.bytes.subrange(old(self)@.bytes.len() as int, final(self)@.bytes.len() as int),
            out.0 is Ok ==> (exists|p: P, s: &[u8]| s@ == final(self)@.unconsumed() && #[trigger] call_ensures(p, (s,), false))
                || final(self)@.full_at(limit as int) || ended(out.1@),
    {
        let ghost pred0 = pred;
        let mut predicate = pred;
        let ghost start = self@;
        proof { lemma_extends_refl(start); }
        let mut total: usize = 0;
        let ghost mut first = true;
        let ghost mut evs: Seq<ReadEvent> = Seq::empty();
        proof {
            assert(delivered(evs) =~= Seq::<u8>::empty());
            assert(self@.bytes.subrange(start.bytes.len() as int, self@.bytes.len() as int) =~= Seq::<u8>::empty());
        }
        loop
            invariant
                self.inv(),
                start == old(self)@,
                start.cap <= self@.cap <= limit,
                grown_by_rule(start.cap as int, self@.cap as int, limit as int),
                valid_capacity(limit as int),
                self@.extends(start, total as int),
                delivered(evs) == self@.bytes.subrange(start.bytes.len() as int, self@.bytes.len() as int),
                first ==> evs.len() == 0,
                forall|s: &[u8]| call_requires(predicate, (s,)),
                pred0 == pred,
                first ==> self@ == start && predicate == pred0 && *src == *old(src) && total == 0,
                !first ==> !(forall|s: &[u8], keep: bool| s@ == start.unconsumed() && call_ensures(pred0, (s,), keep) ==> !keep),
            decreases limit - self@.bytes.len(), limit - self@.cap,
        {
            let ghost pb = predicate;
            let un = self.unconsumed();
            let wanted = predicate(un);
            match fill_step(wanted, self.len, self.data.len(), limit) {
                FillStep::Stop => {
                    proof {
                        if !wanted {
                            assert(un@ == self@.unconsumed() && call_ensures(pb, (un,), false));
                        }
                    }
                    return (Ok(total), Ghost(evs));
                },
                FillStep::Grow => {
                    proof { lemma_growth_target(self.len + 1, limit as int); }
                    let target = grow_target(self.len + 1, limit);
                    let ghost c = self.len as int;
                    self.grow_to(target);
                    assert(start.cap <= c < self@.cap && self@.cap == growth_target(c + 1, limit as int));
                },
                FillStep::Read => {},
            }
            proof { first = false; }
            let spare = self.data.len() - self.len;
            let ghost before = self@;
            let (step, rev) = self.read_retrying(src, spare);
            proof {
                let k: int = self@.bytes.len() - before.bytes.len();
                lemma_log_step(start, before, self@, evs, rev@, total as int, k);
                evs = evs + rev@;
            }
            match step {
                Ok(ReadStep::Got(n)) => {
                    proof { lemma_extends_trans(start, before, self@, total as int, n as int); }
                    total = total + n;
                },
                Ok(_) => {
                    return (Ok(total), Ghost(evs));
                },
                Err(e) => {
                    return (Err(e), Ghost(evs));
                },
            }
        }
    }

    /// Reads from the source until it ends or the buffer is full at `limit`, growing by the
    /// growth rule whenever the buffer is full. Returns the number of bytes read, and the reads
    /// of the source it made, whose bytes are the ones appended: it stops only when the buffer
    /// is full at `limit` or a read found the source at its end.
    pub(crate) fn fill_to_end_within<R: std::io::Read>(&mut self, src: &mut R, limit: usize) -> (out: (Result<usize, ReadError>, Ghost<Seq<ReadEvent>>))
        requires
            old(self).inv(),
            valid_capacity(limit as int),
            old(self)@.cap <= limit,
        ensures
            final(self).inv(),
            old(self)@.cap <= final(self)@.cap <= limit,
            grown_by_rule(old(self)@.cap as int, final(self)@.cap as int, limit as int),
            final(self)@.keeps(old(self)@),
            out.0 matches Ok(n) ==> final(self)@.extends(old(self)@, n as int),
            out.0 matches Err(e) ==> (e is Interrupted || e is Io || e is ReadCountOutOfRange),
            delivered(out.1@) == final(self)@.bytes.subrange(old(self)@.bytes.len() as int, final(self)@.bytes.len() as int),
            out.0 is Ok ==> final(self)@.full_at(limit as int) || ended(out.1@),
            !old(self)@.full_at(limit as int) ==> out.1@.len() > 0,
    {
        let ghost start = self@;
        proof { lemma_extends_refl(start); }
        let mut total: usize = 0;
        let ghost mut evs: Seq<ReadEvent> = Seq::empty();
        proof {
            assert(delivered(evs) =~= Seq::<u8>::empty());
            assert(self@.bytes.subrange(start.bytes.len() as int, self@.bytes.len() as int) =~= Seq::<u8>::empty());
        }
        loop
            invariant
                self.inv(),
                start == old(self)@,
                start.cap <= self@.cap <= limit,
                grown_by_rule(start.cap as int, self@.cap as int, limit as int),
                valid_capacity(limit as int),
                self@.extends(start, total as int),
                delivered(evs) == self@.bytes.subrange(start.bytes.len() as int, self@.bytes.len() as int),
                evs.len() == 0 ==> self@ == start,
            decreases limit - self@.bytes.len(), limit - self@.cap,
        {
            match fill_step(true, self.len, self.data.len(), limit) {
                FillStep::Stop => {
                    return (Ok(total), Ghost(evs));
                },
                FillStep::Grow => {
                    proof { lemma_growth_target(self.len + 1, limit as int); }
                    let target = grow_target(self.len + 1, limit);
                    let ghost c = self.len as int;
                    self.grow_to(target);
                    assert(start.cap <= c < self@.cap && self@.cap == growth_target(c + 1, limit as int));
                },
                FillStep::Read => {},
            }
            let spare = self.data.len() - self.len;
            let ghost before = self@;
            let (step, rev) = self.read_retrying(src, spare);
            proof {
                let k: int = self@.bytes.len() - before.bytes.len();
                lemma_log_step(start, before, self@, evs, rev@, total as int, k);
                evs = evs + rev@;
            }
            match step {
                Ok(ReadStep::Got(n)) => {
                    proof { lemma_extends_trans(start, before, self@, total as int, n as int); }
                    total = total + n;
                },
                Ok(_) => {
                    return (Ok(total), Ghost(evs));
                },
                Err(e) => {
                    return (Err(e), Ghost(evs));
                },
            }
        }
    }

    /// Reads from the source until `needle` occurs in the unconsumed bytes, checking the bytes
    /// already there first and never searching a position twice, growing by the growth rule,
    /// never beyond `limit`, whenever the buffer is full. Stops when the needle is found, the
    /// source ends, or the buffer is full at `limit`. Returns the number of bytes read, and the
    /// reads of the source it made, whose bytes are the ones appended: it stops only when the
    /// needle occurs in the unconsumed bytes, the buffer is full at `limit`, or a read found the
    /// source at its end, and it reads when the needle is not among the unconsumed bytes and
    /// there is room to read into.
    pub(crate) fn fill_until_bytes_within<R: std::io::Read>(&mut self, src: &mut R, needle: &[u8], limit: usize) -> (out: (Result<usize, ReadError>, Ghost<Seq<ReadEvent>>))
        requires
            old(self).inv(),
            valid_capacity(limit as int),
            old(self)@.cap <= limit,
        ensures
            final(self).inv(),
            old(self)@.cap <= final(self)@.cap <= limit,
            grown_by_rule(old(self)@.cap as int, final(self)@.cap as int, limit as int),
            final(self)@.keeps(old(self)@),
            out.0 matches Ok(n) ==> final(self)@.extends(old(self)@, n as int),
            occurs(old(self)@.unconsumed(), needle@) ==> (out.0 matches Ok(n) && n == 0) && final(self)@ == old(self)@
                && *final(src) == *old(src) && out.1@.len() == 0,
            out.0 matches Ok(n) && n > 0 ==> !occurs(old(self)@.unconsumed(), needle@),
            out.0 matches Err(e) ==> (e is Interrupted || e is Io || e is ReadCountOutOfRange),
            delivered(out.1@) == final(self)@.bytes.subrange(old(self)@.bytes.len() as int, final(self)@.bytes.len() as int),
            out.0 is Ok ==> occurs(final(self)@.unconsumed(), needle@) || final(self)@.full_at(limit as int) || ended(out.1@),
            !occurs(old(self)@.unconsumed(), needle@) && !old(self)@.full_at(limit as int) ==> out.1@.len() > 0,
    {
        let ghost start = self@;
        proof { lemma_extends_refl(start); }
        let nl = needle.len();
        let mut total: usize = 0;
        let mut from: usize = 0;
        let ghost mut first = true;
        let ghost mut evs: Seq<ReadEvent> = Seq::empty();
        proof {
            assert(delivered(evs) =~= Seq::<u8>::empty());
            assert(self@.bytes.subrange(start.bytes.len() as int, self@.bytes.len() as int) =~= Seq::<u8>::empty());
        }
        loop
            invariant
                delivered(evs) == self@.bytes.subrange(start.bytes.len() as int, self@.bytes.len() as int),
                evs.len() == 0 ==> self@ == start,
                first ==> evs.len() == 0,
                self.inv(),
                start == old(self)@,
                start.cap <= self@.cap <= limit,
                grown_by_rule(start.cap as int, self@.cap as int, limit as int),
                valid_capacity(limit as int),
                self@.extends(start, total as int),
                total == 0 ==> self@ == start,
                total > 0 ==> !occurs(start.unconsumed(), needle@),
                first ==> total == 0 && self@ == start && *src == *old(src),
                !first ==> !occurs(start.unconsumed(), needle@),
                nl == needle@.len(),
                forall|j: int|
                    0 <= j < from ==> j + nl <= self@.unconsumed().len() && !matches_at(
                        self@.unconsumed(),
                        needle@,
                        j,
                    ),
            decreases limit - self@.bytes.len(), limit - self@.cap,
        {
            let un = self.unconsumed();
            let ulen = un.len();
            match find_from(un, needle, from) {
                Some(i) => {
                    assert(matches_at(self@.unconsumed(), needle@, i as int));
                    return (Ok(total), Ghost(evs));
                },
                None => {},
            }
            assert(!occurs(self@.unconsumed(), needle@));
            proof { first = false; }
            from = if ulen >= nl { ulen - nl + 1 } else { 0 };
            match fill_step(true, self.len, self.data.len(), limit) {
                FillStep::Stop => {
                    return (Ok(total), Ghost(evs));
                },
                FillStep::Grow => {
                    proof { lemma_growth_target(self.len + 1, limit as int); }
                    let target = grow_target(self.len + 1, limit);
                    let ghost c = self.len as int;
                    self.grow_to(target);
                    assert(start.cap <= c < self@.cap && self@.cap == growth_target(c + 1, limit as int));
                },
                FillStep::Read => {},
            }
            let spare = self.data.len() - self.len;
            let ghost before = self@;
            let (step, rev) = self.read_retrying(src, spare);
            proof {
                let k: int = self@.bytes.len() - before.bytes.len();
                lemma_log_step(start, before, self@, evs, rev@, total as int, k);
                evs = evs + rev@;
            }
            match step {
                Ok(ReadStep::Got(n)) => {
                    proof {
                        lemma_extends_trans(start, before, self@, total as int, n as int);
                        let hay = before.unconsumed();
                        let longer = self@.unconsumed();
                        assert(longer.subrange(0, hay.len() as int) =~= hay);
                        assert forall|j: int| 0 <= j < from implies j + nl <= longer.len() && !matches_at(longer, needle@, j) by {
                            lemma_matches_in_prefix(hay, longer, needle@, j);
                        }
                    }
                    total = total + n;
                },
                Ok(_) => {
                    return (Ok(total), Ghost(evs));
                },
                Err(e) => {
                    return (Err(e), Ghost(evs));
                },
            }
        }
    }

    /// Copies as many unconsumed bytes as fit into `dst`, from its start, and returns how many
    /// were copied; the buffer is unchanged.
    pub(crate) fn copy_unconsumed_into(&self, dst: &mut [u8]) -> (k: usize)
        requires
            self.inv(),
        ensures
            k == if self@.unconsumed().len() <= old(dst)@.len() { self@.unconsumed().len() } else { old(dst)@.len() },
            final(dst)@ == self@.unconsumed().subrange(0, k as int) + old(dst)@.subrange(k as int, old(dst)@.len() as int),
    {
        let n = self.len - self.pos;
        let k = if n <= dst.len() { n } else { dst.len() };
        let ghost d0 = dst@;
        let mut i: usize = 0;
        while i < k
            invariant
                self.inv(),
                i <= k,
                k <= self.len - self.pos,
                k <= d0.len(),
                dst@.len() == d0.len(),
                forall|j: int| 0 <= j < i ==> dst@[j] == self@.unconsumed()[j],
                forall|j: int| k <= j < d0.len() ==> dst@[j] == d0[j],
            decreases k - i,
        {
            dst[i] = self.data[self.pos + i];
            i = i + 1;
        }
        assert(dst@ =~= self@.unconsumed().subrange(0, k as int) + d0.subrange(k as int, d0.len() as int));
        k
    }

    /// Copies as many unconsumed bytes from offset `off` on as fit into `dst`, from its start,
    /// and returns how many were copied; the buffer is unchanged.
    pub(crate) fn copy_unconsumed_from(&self, off: usize, dst: &mut [u8]) -> (k: usize)
        requires
            self.inv(),
            off <= self@.unconsumed().len(),
        ensures
            k == if self@.unconsumed().len() - off <= old(dst)@.len() { self@.unconsumed().len() - off } else { old(dst)@.len() as int },
            final(dst)@ == self@.unconsumed().subrange(off as int, off + k) + old(dst)@.subrange(k as int, old(dst)@.len() as int),
    {
        let n = self.len - self.pos - off;
        let k = if n <= dst.len() { n } else { dst.len() };
        let ghost d0 = dst@;
        let mut i: usize = 0;
        while i < k
            invariant
                self.inv(),
                i <= k,
                off + k <= self.len - self.pos,
                k <= d0.len(),
                dst@.len() == d0.len(),
                forall|j: int| 0 <= j < i ==> dst@[j] == self@.unconsumed()[off + j],
                forall|j: int| k <= j < d0.len() ==> dst@[j] == d0[j],
            decreases k - i,
        {
            dst[i] = self.data[self.pos + off + i];
            i = i + 1;
        }
        assert(dst@ =~= self@.unconsumed().subrange(off as int, off + k) + d0.subrange(k as int, d0.len() as int));
        k
    }

    /// The growth limit that a fill with the requested `limit` works with.
    fn limit_for(&self, limit: usize) -> (l: usize)
        requires
            self.inv(),
        ensures
            l == effective_limit(limit as int, self@.cap as int),
            valid_capacity(l as int),
            self@.cap <= l,
    {
        let capped = if limit > MAX_SUPPORTED_CAPACITY { MAX_SUPPORTED_CAPACITY } else { limit };
        let down = capped / CHUNK_SIZE * CHUNK_SIZE;
        let cap = self.data.len();
        if down >= cap { down } else { cap }
    }

    /// Reads from the source until at least `amt` more bytes are retained or the source ends,
    /// growing first so that `amt` more bytes fit, but never beyond `limit` (see
    /// [`effective_limit`]). Fails with `ExceedsMaxCapacity`, reading nothing, if they would
    /// not fit. Returns the number of bytes read.
    pub fn fill_amount<R: std::io::Read>(&mut self, src: &mut R, amt: usize, limit: usize) -> (res: Result<usize, ReadError>)
        requires
            old(self).inv(),
        ensures
            final(self).inv(),
            ({
                let lim = effective_limit(limit as int, old(self)@.cap as int);
                &&& (res matches Err(e) && e is ExceedsMaxCapacity) <==> old(self)@.bytes.len() + amt > lim
                &&& old(self)@.bytes.len() + amt > lim ==> final(self)@ == old(self)@ && *final(src) == *old(src)
                &&& old(self)@.bytes.len() + amt <= lim ==> {
                    &&& final(self)@.cap == reserved_cap(old(self)@, amt as int, lim)
                    &&& final(self)@.keeps(old(self)@)
                }
            }),
            res matches Ok(n) ==> final(self)@.extends(old(self)@, n as int),
            amt == 0 ==> (res matches Ok(n) && n == 0) && *final(src) == *old(src),
    {
        let lim = self.limit_for(limit);
        if amt > lim - self.len {
            return Err(ReadError::ExceedsMaxCapacity);
        }
        let (res, _reads) = self.fill_amount_within(src, amt, lim);
        res
    }

    /// Reads from the source until exactly `amt` more bytes are retained, growing first so that
    /// they fit, but never beyond `limit` (see [`effective_limit`]). Fails with
    /// `ExceedsMaxCapacity`, reading nothing, if they would not fit, and with `UnexpectedEof`
    /// if the source ends first; the bytes read until then stay in the buffer.
    pub fn fill_exact<R: std::io::Read>(&mut self, src: &mut R, amt: usize, limit: usize) -> (res: Result<(), ReadError>)
        requires
            old(self).inv(),
        ensures
            final(self).inv(),
            ({
                let lim = effective_limit(limit as int, old(self)@.cap as int);
                &&& (res matches Err(e) && e is ExceedsMaxCapacity) <==> old(self)@.bytes.len() + amt > lim
                &&& old(self)@.bytes.len() + amt > lim ==> final(self)@ == old(self)@ && *final(src) == *old(src)
                &&& old(self)@.bytes.len() + amt <= lim ==> {
                    &&& final(self)@.cap == reserved_cap(old(self)@, amt as int, lim)
                    &&& final(self)@.keeps(old(self)@)
                }
            }),
            res is Ok <==> final(self)@.extends(old(self)@, amt as int),
            final(self)@.bytes.len() <= old(self)@.bytes.len() + amt,
            amt == 0 ==> res is Ok && *final(src) == *old(src),
    {
        let lim = self.limit_for(limit);
        if amt > lim - self.len {
            return Err(ReadError::ExceedsMaxCapacity);
        }
        let (res, _reads) = self.fill_exact_within(src, amt, lim);
        res
    }

    /// Reads from the source while `predicate` holds of the unconsumed bytes, checking it
    /// before each read and growing by the growth rule whenever the buffer is full, but never
    /// beyond `limit` (see [`effective_limit`]). Stops when the predicate fails, the source
    /// ends, or the buffer is full at the limit. Returns the number of bytes read.
    pub fn fill_while<R: std::io::Read, P: FnMut(&[u8]) -> bool>(
        &mut self,
        src: &mut R,
        predicate: P,
        limit: usize,
    ) -> (res: Result<usize, ReadError>)
        requires
            old(self).inv(),
            forall|s: &[u8]| call_requires(predicate, (s,)),
        ensures
            final(self).inv(),
            old(self)@.cap <= final(self)@.cap <= effective_limit(limit as int, old(self)@.cap as int),
            grown_by_rule(old(self)@.cap as int, final(self)@.cap as int, effective_limit(limit as int, old(self)@.cap as int)),
            final(self)@.keeps(old(self)@),
            res matches Ok(n) ==> final(self)@.extends(old(self)@, n as int),
            (forall|s: &[u8], keep: bool| s@ == old(self)@.unconsumed() && call_ensures(predicate, (s,), keep) ==> !keep)
                ==> (res matches Ok(n) && n == 0) && final(self)@ == old(self)@ && *final(src) == *old(src),
            res matches Err(e) ==> (e is Interrupted || e is Io || e is ReadCountOutOfRange),
    {
        let lim = self.limit_for(limit);
        let (res, _reads) = self.fill_while_within(src, predicate, lim);
        res
    }

    /// Reads from the source until `needle` occurs in the unconsumed bytes, checking the bytes
    /// already there first, growing by the growth rule whenever the buffer is full, but never
    /// beyond `limit` (see [`effective_limit`]). Stops when the needle is found, the source
    /// ends, or the buffer is full at the limit. Returns the number of bytes read.
    pub fn fill_until_bytes<R: std::io::Read>(&mut self, src: &mut R, needle: &[u8], limit: usize) -> (res: Result<usize, ReadError>)
        requires
            old(self).inv(),
        ensures
            final(self).inv(),
            old(self)@.cap <= final(self)@.cap <= effective_limit(limit as int, old(self)@.cap as int),
            grown_by_rule(old(self)@.cap as int, final(self)@.cap as int, effective_limit(limit as int, old(self)@.cap as int)),
            final(self)@.keeps(old(self)@),
            res matches Ok(n) ==> final(self)@.extends(old(self)@, n as int),
            occurs(old(self)@.unconsumed(), needle@) ==> (res matches Ok(n) && n == 0) && final(self)@ == old(self)@
                && *final(src) == *old(src),
            res matches Ok(n) && n > 0 ==> !occurs(old(self)@.unconsumed(), needle@),
            res matches Err(e) ==> (e is Interrupted || e is Io || e is ReadCountOutOfRange),
    {
        let lim = self.limit_for(limit);
        let (res, _reads) = self.fill_until_bytes_within(src, needle, lim);
        res
    }

    /// Drops all retained bytes and resets the position; the capacity stays.
    pub fn clear(&mut self)
        requires
            old(self).inv(),
        ensures
            final(self).inv(),
            final(self)@ == old(self)@.cleared(),
    {
        self.len = 0;
        self.pos = 0;
    }
}

impl Default for Buffer {
    /// An empty buffer of one chunk, like [`Buffer::new`].
    fn default() -> (b: Buffer)
        ensures
            b.inv(),
            b@ == BufferView::empty(CHUNK_SIZE as nat),
    {
        Buffer::new()
    }
}

impl PartialEq for Buffer {
    /// Two buffers are equal when they retain the same bytes at the same read position; the
    /// capacity and the contents of the spare room do not matter.
    fn eq(&self, other: &Buffer) -> (r: bool) {
        if self.len != other.len || self.pos != other.pos {
            return false;
        }
        if self.len > self.data.len() || other.len > other.data.len() {
            return true;
        }
        let mut i: usize = 0;
        while i < self.len
            invariant
                self.len == other.len,
                self.len <= self.data@.len(),
                other.len <= other.data@.len(),
                i <= self.len,
                forall|j: int| 0 <= j < i ==> self.data@[j] == other.data@[j],
            decreases self.len - i,
        {
            if self.data[i] != other.data[i] {
                assert(self.data@.subrange(0, self.len as int)[i as int] != other.data@.subrange(0, self.len as int)[i as int]);
                return false;
            }
            i = i + 1;
        }
        assert(self.data@.subrange(0, self.len as int) =~= other.data@.subrange(0, self.len as int));
        true
    }
}

impl Eq for Buffer {}

impl vstd::std_specs::cmp::PartialEqSpecImpl for Buffer {
    open spec fn obeys_eq_spec() -> bool {
        true
    }

    open spec fn eq_spec(&self, other: &Buffer) -> bool {
        self.same_state(other)
    }
}

} // verus!
