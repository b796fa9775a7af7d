//! Properties that relate the buffer operations to one another.

use crate::buffer::{bytes_of, delivered, ended, fill_step_spec, reserved_cap, BufferView, FillStep, ReadEvent};
use crate::capacity::{
    lemma_doubled_until_pow2, lemma_pow2_zero, round_exponential, round_linear, MAX_EXPONENTIAL_CAPACITY,
    lemma_growth_target, lemma_round_exponential, lemma_round_linear, valid_capacity, CHUNK_SIZE, DEFAULT_MAX_CAPACITY, MAX_SUPPORTED_CAPACITY,
};
use crate::reader::{built_capacity, built_max_capacity, logical_pos};
use vstd::arithmetic::power2::pow2;
use vstd::prelude::*;

verus! {

/// Discarding is clearing followed by shrinking.
pub proof fn law_discard_is_clear_then_shrink(v: BufferView)
    requires
        v.wf(),
    ensures
        v.cleared().shrunk() == v.discarded(),
{
    assert(v.cleared().shrunk() =~= v.discarded());
}

/// Compacting keeps exactly the unconsumed bytes, now at position 0, and the capacity.
pub proof fn law_compact_keeps_unconsumed(v: BufferView)
    requires
        v.wf(),
    ensures
        v.compacted().wf(),
        v.compacted().unconsumed() == v.unconsumed(),
        v.compacted().pos == 0,
        v.compacted().cap == v.cap,
{
    assert(v.compacted().unconsumed() =~= v.unconsumed());
}

/// Moving the position back undoes consuming, as long as the consumed amount was available.
pub proof fn law_rewind_undoes_advance(v: BufferView, n: int)
    requires
        v.wf(),
        0 <= n <= v.unconsumed().len(),
    ensures
        v.advanced(n).rewound(n) == v,
{
}

/// Consuming undoes moving the position back, as long as the position could move that far.
pub proof fn law_advance_undoes_rewind(v: BufferView, n: int)
    requires
        v.wf(),
        0 <= n <= v.pos,
    ensures
        v.rewound(n).advanced(n) == v,
{
}

/// Splitting off the consumed bytes loses nothing: the split-off bytes followed by the kept
/// ones are the retained bytes, the kept ones are exactly the unconsumed ones, and both parts
/// are well formed.
pub proof fn law_take_consumed_splits(v: BufferView)
    requires
        v.wf(),
    ensures
        v.consumed_part().bytes + v.unconsumed_part().bytes == v.bytes,
        v.unconsumed_part().unconsumed() == v.unconsumed(),
        v.consumed_part().unconsumed().len() == 0,
        v.consumed_part().wf(),
        v.unconsumed_part().wf(),
{
    lemma_round_linear(v.pos as int);
    lemma_round_linear(v.bytes.len() - v.pos);
    assert(v.consumed_part().bytes + v.unconsumed_part().bytes =~= v.bytes);
    assert(v.unconsumed_part().unconsumed() =~= v.unconsumed());
}

/// Shrinking keeps the bytes and the position, never grows, and a second shrink changes
/// nothing.
pub proof fn law_shrink(v: BufferView)
    requires
        v.wf(),
    ensures
        v.shrunk().wf(),
        v.shrunk().bytes == v.bytes,
        v.shrunk().pos == v.pos,
        v.shrunk().cap <= v.cap,
        v.shrunk().shrunk() == v.shrunk(),
{
    lemma_round_linear(v.bytes.len() as int);
    crate::buffer::lemma_round_linear_within(v.bytes.len() as int, v.cap as int);
}

/// Growth made by a fill that needs room for `amt` more bytes yields a valid capacity that
/// holds them and stays within `limit`; a buffer with room enough does not grow.
pub proof fn law_growth_within_limit(v: BufferView, amt: int, limit: int)
    requires
        v.wf(),
        0 <= amt,
        valid_capacity(limit),
        v.cap <= limit,
        v.bytes.len() + amt <= limit,
    ensures
        valid_capacity(reserved_cap(v, amt, limit) as int),
        v.bytes.len() + amt <= reserved_cap(v, amt, limit) <= limit,
        v.cap <= reserved_cap(v, amt, limit),
        v.bytes.len() + amt <= v.cap ==> reserved_cap(v, amt, limit) == v.cap,
{
    if v.bytes.len() + amt > v.cap {
        lemma_growth_target(v.bytes.len() + amt, limit);
    }
}

/// A built reader's capacities: both valid, the initial one within the maximum, each at least
/// what was requested (when that is supported), and the default maximum when none was
/// requested.
pub proof fn law_built_capacities(initial: Option<usize>, max: Option<usize>)
    ensures
        valid_capacity(built_capacity(initial)),
        valid_capacity(built_max_capacity(initial, max)),
        built_capacity(initial) <= built_max_capacity(initial, max),
        initial matches Some(c) ==> (c <= MAX_SUPPORTED_CAPACITY ==> c <= built_capacity(initial)),
        max matches Some(m) ==> (m <= MAX_SUPPORTED_CAPACITY ==> m <= built_max_capacity(initial, max)),
        max is None && built_capacity(initial) <= DEFAULT_MAX_CAPACITY ==> built_max_capacity(initial, max) == DEFAULT_MAX_CAPACITY,
{
    if let Some(c) = initial {
        lemma_round_linear(c as int);
    }
    if let Some(m) = max {
        lemma_round_exponential(m as int);
    }
    assert(DEFAULT_MAX_CAPACITY % CHUNK_SIZE == 0);
}

/// Consuming `k` unconsumed bytes moves the logical stream position forward by `k`, and
/// moving the read position back by `k` moves it back by `k`, for the same source position.
pub proof fn law_logical_position_follows_cursor(v: BufferView, inner_pos: int, k: int)
    requires
        v.wf(),
        0 <= k,
    ensures
        k <= v.unconsumed().len() ==> logical_pos(inner_pos, v.advanced(k)) == logical_pos(inner_pos, v) + k,
        k <= v.pos ==> logical_pos(inner_pos, v.rewound(k)) == logical_pos(inner_pos, v) - k,
{
}

/// Reading hands out the unconsumed bytes in order, none lost or repeated: consuming `k` of
/// them and then `m` more hands out exactly the first `k + m`, and leaves the same state as
/// consuming `k + m` at once.
pub proof fn law_reads_conserve_bytes(v: BufferView, k: int, m: int)
    requires
        v.wf(),
        0 <= k,
        0 <= m,
        k + m <= v.unconsumed().len(),
    ensures
        v.unconsumed().subrange(0, k) + v.advanced(k).unconsumed().subrange(0, m) == v.unconsumed().subrange(0, k + m),
        v.advanced(k).advanced(m) == v.advanced(k + m),
{
    assert(v.unconsumed().subrange(0, k) + v.advanced(k).unconsumed().subrange(0, m) =~= v.unconsumed().subrange(0, k + m));
}

/// The bytes a fill reads come after the buffered unconsumed ones: the unconsumed bytes
/// afterwards are the ones before, followed by the bytes read.
pub proof fn law_fill_appends_after_unconsumed(before: BufferView, after: BufferView, n: int)
    requires
        before.wf(),
        0 <= n,
        after.extends(before, n),
    ensures
        after.unconsumed() == before.unconsumed() + after.bytes.subrange(before.bytes.len() as int, after.bytes.len() as int),
{
    assert(after.unconsumed() =~= before.unconsumed() + after.bytes.subrange(before.bytes.len() as int, after.bytes.len() as int)) by {
        assert(after.bytes.subrange(0, before.bytes.len() as int) == before.bytes);
        assert forall|i: int| before.pos <= i < before.bytes.len() implies after.bytes[i] == before.bytes[i] by {
            assert(after.bytes.subrange(0, before.bytes.len() as int)[i] == after.bytes[i]);
        }
    }
}

/// Before each read a fill stops only when its condition asks for no more bytes or the buffer
/// is full at its limit; it grows exactly when it is full below the limit and more is wanted.
pub proof fn law_fill_stops_only_when_done(wanted: bool, len: int, cap: int, limit: int)
    requires
        0 <= len <= cap,
    ensures
        fill_step_spec(wanted, len, cap, limit) == FillStep::Stop <==> (!wanted || (len == cap && cap >= limit)),
        fill_step_spec(wanted, len, cap, limit) == FillStep::Grow <==> (wanted && len == cap && cap < limit),
{
}

/// The linear rounding of a supported request above one chunk is its ceiling to a chunk
/// boundary: the least multiple of `CHUNK_SIZE` that holds it. Up to `MAX_EXPONENTIAL_CAPACITY`
/// the exponential rounding is `CHUNK_SIZE` times the least power of two that holds the
/// request: `2^k` chunks hold it and, unless `k` is 0, `2^(k-1)` chunks do not.
pub proof fn law_roundings_are_ceilings(n: int)
    ensures
        CHUNK_SIZE < n <= MAX_SUPPORTED_CAPACITY ==> {
            &&& round_linear(n) % (CHUNK_SIZE as int) == 0
            &&& n <= round_linear(n) < n + CHUNK_SIZE
        },
        n <= MAX_EXPONENTIAL_CAPACITY ==> exists|k: nat|
            round_exponential(n) == CHUNK_SIZE * #[trigger] pow2(k) && n <= CHUNK_SIZE * pow2(k) && (k == 0 || CHUNK_SIZE
                * pow2((k - 1) as nat) < n),
{
    lemma_round_linear(n);
    lemma_pow2_zero();
    lemma_doubled_until_pow2(0, n);
    assert(CHUNK_SIZE * pow2(0) == CHUNK_SIZE);
}

/// Bytes come only from reads that got some: reads that delivered bytes include one that got
/// bytes.
pub proof fn law_delivery_needs_a_read(ev: Seq<ReadEvent>)
    requires
        delivered(ev).len() > 0,
    ensures
        exists|i: int| 0 <= i < ev.len() && #[trigger] ev[i] is Got,
    decreases ev.len(),
{
    if ev.len() > 0 {
        if ev.last() is Got {
            assert(ev[ev.len() - 1] is Got);
        } else {
            assert(bytes_of(ev.last()) =~= Seq::<u8>::empty());
            assert(delivered(ev.drop_last()) =~= delivered(ev));
            law_delivery_needs_a_read(ev.drop_last());
            let i = choose|i: int| 0 <= i < ev.drop_last().len() && #[trigger] ev.drop_last()[i] is Got;
            assert(ev[i] is Got);
        }
    }
}

/// A successful exact read of more bytes than were buffered read the source: when the filled
/// buffer and what stays unconsumed are the bytes buffered before followed by the bytes the
/// reads delivered, and fewer bytes were buffered than asked for, some read got bytes.
pub proof fn law_exact_read_reads_when_short(before: Seq<u8>, filled: Seq<u8>, after: Seq<u8>, ev: Seq<ReadEvent>)
    requires
        filled + after == before + delivered(ev),
        before.len() < filled.len(),
    ensures
        exists|i: int| 0 <= i < ev.len() && #[trigger] ev[i] is Got,
{
    assert((filled + after).len() == filled.len() + after.len());
    law_delivery_needs_a_read(ev);
}

} // verus!
