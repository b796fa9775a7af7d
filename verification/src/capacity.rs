//! Capacity policy: every buffer capacity is a whole number of chunks.
//!
//! Two roundings exist. The linear one rounds a request up to the next chunk boundary and is
//! used for initial capacities and for shrinking. The exponential one rounds a request up to a
//! chunk count that is a power of two, and is used for growth ceilings and growth steps; past
//! `MAX_EXPONENTIAL_CAPACITY` it falls back to the linear rounding.

use vstd::arithmetic::power::lemma_pow0;
use vstd::arithmetic::power2::{lemma_pow2, lemma_pow2_pos, lemma_pow2_unfold, pow2};
use vstd::prelude::*;

verus! {

/// Every capacity is a multiple of this many bytes (8 KiB); new buffers start with one chunk.
pub const CHUNK_SIZE: usize = 8192;

/// The default growth ceiling of a new reader (256 MiB).
pub const DEFAULT_MAX_CAPACITY: usize = 268435456;

/// Above this size growth steps are rounded linearly rather than to powers of two (1 GiB).
pub const MAX_EXPONENTIAL_CAPACITY: usize = 1073741824;

/// The largest capacity a buffer may ever have: the largest chunk multiple below 2 GiB, which
/// fits a signed 32-bit size.
pub const MAX_SUPPORTED_CAPACITY: usize = 2147475456;

/// A capacity the buffer may have: at least one chunk, chunk-aligned, and supported.
pub open spec fn valid_capacity(c: int) -> bool {
    &&& CHUNK_SIZE <= c <= MAX_SUPPORTED_CAPACITY
    &&& c % (CHUNK_SIZE as int) == 0
}

/// `n` rounded up to a chunk boundary, at least one chunk, at most the supported maximum.
pub open spec fn round_linear(n: int) -> int {
    if n <= CHUNK_SIZE {
        CHUNK_SIZE as int
    } else if n > MAX_SUPPORTED_CAPACITY {
        MAX_SUPPORTED_CAPACITY as int
    } else {
        ((n + CHUNK_SIZE - 1) / (CHUNK_SIZE as int)) * (CHUNK_SIZE as int)
    }
}

/// The first value in the doubling sequence `c, 2c, 4c, ...` that is at least `n`.
pub open spec fn doubled_until(c: int, n: int) -> int
    decreases (if c < n { n - c } else { 0 }),
{
    if c <= 0 || c >= n {
        c
    } else {
        doubled_until(2 * c, n)
    }
}

/// `n` rounded up to a power-of-two number of chunks; above `MAX_EXPONENTIAL_CAPACITY`, rounded
/// up linearly instead.
pub open spec fn round_exponential(n: int) -> int {
    if n > MAX_EXPONENTIAL_CAPACITY {
        round_linear(n)
    } else {
        doubled_until(CHUNK_SIZE as int, n)
    }
}

/// The capacity a fill grows to when it needs room for `required` bytes in all, without
/// passing `limit`.
pub open spec fn growth_target(required: int, limit: int) -> int {
    let up = round_exponential(required);
    if up <= limit { up } else { limit }
}

/// The linear rounding is a valid capacity and holds `n` whenever `n` is supported.
pub proof fn lemma_round_linear(n: int)
    ensures
        valid_capacity(round_linear(n)),
        n <= MAX_SUPPORTED_CAPACITY ==> n <= round_linear(n),
        n <= MAX_SUPPORTED_CAPACITY ==> round_linear(n) < n + CHUNK_SIZE || n <= 0,
        valid_capacity(n) ==> round_linear(n) == n,
{
}

proof fn lemma_doubled_until(c: int, n: int)
    requires
        c >= CHUNK_SIZE,
        c % (CHUNK_SIZE as int) == 0,
        c < 2 * n || c == CHUNK_SIZE,
    ensures
        doubled_until(c, n) >= n,
        doubled_until(c, n) % (CHUNK_SIZE as int) == 0,
        doubled_until(c, n) >= CHUNK_SIZE,
        doubled_until(c, n) < 2 * n || doubled_until(c, n) == c,
    decreases (if c < n { n - c } else { 0 }),
{
    if c < n {
        lemma_doubled_until(2 * c, n);
    }
}

/// Doubling from `CHUNK_SIZE * 2^j` until `n` is reached ends at the first power-of-two
/// multiple of the chunk size, from `2^j` chunks on, that holds `n`.
pub proof fn lemma_doubled_until_pow2(j: nat, n: int)
    ensures
        exists|k: nat|
            k >= j && doubled_until(CHUNK_SIZE * pow2(j), n) == CHUNK_SIZE * #[trigger] pow2(k) && n <= CHUNK_SIZE * pow2(k) && (
            k == j || CHUNK_SIZE * pow2((k - 1) as nat) < n),
    decreases (if CHUNK_SIZE * pow2(j) < n { n - CHUNK_SIZE * pow2(j) } else { 0 }),
{
    lemma_pow2_pos(j);
    let c = CHUNK_SIZE * pow2(j);
    if c >= n {
        assert(doubled_until(c, n) == c);
    } else {
        lemma_pow2_unfold(j + 1);
        assert(CHUNK_SIZE * pow2(j + 1) == 2 * c);
        lemma_doubled_until_pow2(j + 1, n);
        let k = choose|k: nat|
            k >= j + 1 && doubled_until(CHUNK_SIZE * pow2(j + 1), n) == CHUNK_SIZE * #[trigger] pow2(k) && n <= CHUNK_SIZE * pow2(k)
                && (k == j + 1 || CHUNK_SIZE * pow2((k - 1) as nat) < n);
        assert(doubled_until(c, n) == doubled_until(2 * c, n));
        assert(k >= j && doubled_until(c, n) == CHUNK_SIZE * pow2(k) && n <= CHUNK_SIZE * pow2(k) && (k == j || CHUNK_SIZE
            * pow2((k - 1) as nat) < n));
    }
}

/// `2^0` is 1.
pub proof fn lemma_pow2_zero()
    ensures
        pow2(0) == 1,
{
    lemma_pow2(0);
    lemma_pow0(2);
}

/// The exponential rounding is a valid capacity that holds `n`, for every supported `n`.
pub proof fn lemma_round_exponential(n: int)
    ensures
        valid_capacity(round_exponential(n)),
        n <= MAX_SUPPORTED_CAPACITY ==> n <= round_exponential(n),
{
    if n <= MAX_EXPONENTIAL_CAPACITY {
        lemma_doubled_until(CHUNK_SIZE as int, n);
    } else {
        lemma_round_linear(n);
    }
}

/// A fill's growth target holds the request, stays within the limit and is a valid capacity.
pub proof fn lemma_growth_target(required: int, limit: int)
    requires
        valid_capacity(limit),
        required <= limit,
    ensures
        valid_capacity(growth_target(required, limit)),
        required <= growth_target(required, limit) <= limit,
{
    lemma_round_exponential(required);
}

/// Rounds `n` up to a chunk boundary (at least one chunk, at most the supported maximum).
pub fn round_up_linear(n: usize) -> (c: usize)
    ensures
        c == round_linear(n as int),
{
    if n <= CHUNK_SIZE {
        CHUNK_SIZE
    } else if n > MAX_SUPPORTED_CAPACITY {
        MAX_SUPPORTED_CAPACITY
    } else {
        (n + (CHUNK_SIZE - 1)) / CHUNK_SIZE * CHUNK_SIZE
    }
}

/// Rounds `n` up to a power-of-two number of chunks (linearly above
/// `MAX_EXPONENTIAL_CAPACITY`).
pub fn round_up_exponential(n: usize) -> (c: usize)
    ensures
        c == round_exponential(n as int),
{
    if n > MAX_EXPONENTIAL_CAPACITY {
        return round_up_linear(n);
    }
    let mut c: usize = CHUNK_SIZE;
    while c < n
        invariant
            n <= MAX_EXPONENTIAL_CAPACITY,
            CHUNK_SIZE <= c,
            c % CHUNK_SIZE == 0,
            c < 2 * n || c == CHUNK_SIZE,
            doubled_until(c as int, n as int) == doubled_until(CHUNK_SIZE as int, n as int),
        decreases 2 * n - c,
    {
        c = c * 2;
    }
    c
}

/// The capacity a fill grows to when it needs room for `required` bytes in all: the
/// exponential rounding of `required`, but no more than `limit`.
pub fn grow_target(required: usize, limit: usize) -> (c: usize)
    ensures
        c == growth_target(required as int, limit as int),
{
    let up = round_up_exponential(required);
    if up <= limit { up } else { limit }
}

} // verus!
