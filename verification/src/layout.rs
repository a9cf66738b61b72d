//! Granule, block and arena layout: the address arithmetic of the heap.
//!
//! The atomic heap unit is the granule, one machine word of 8 bytes. Sizes
//! are always granule counts. A block is `1 << BLOCK_SHIFT` granules and an
//! arena is `1 << ARENA_SHIFT` bytes; within an arena every block has a
//! fixed-size descriptor slot at a computable offset, so that the descriptor
//! governing any address can be found in constant time.

use vstd::prelude::*;

verus! {

/// Bytes per granule: one machine word.
pub const GRANULE_BYTES: usize = 8;

/// A block is `1 << BLOCK_SHIFT` granules.
pub const BLOCK_SHIFT: usize = 10;

/// Granules per block.
pub const BLOCK_GRANULES: usize = 1024;

/// Bytes per block.
pub const BLOCK_BYTES: usize = 8192;

/// An arena is `1 << ARENA_SHIFT` bytes.
pub const ARENA_SHIFT: usize = 20;

/// Bytes per arena.
pub const ARENA_BYTES: usize = 1048576;

/// A descriptor slot is `1 << DESCRIPTOR_SHIFT` bytes, a power of two large
/// enough for the largest descriptor variant.
pub const DESCRIPTOR_SHIFT: usize = 6;

/// Bytes per descriptor slot.
pub const DESCRIPTOR_BYTES: usize = 64;

/// Granules needed to hold `n` bytes: byte sizes round up to whole granules.
pub fn gsize_of_bytes(n: usize) -> (r: usize)
    requires
        n <= usize::MAX - 7,
    ensures
        r == (n as int + 7) / 8,
        r * 8 >= n,
        n > 0 ==> (r - 1) * 8 < n,
{
    (n + 7) / GRANULE_BYTES
}

/// Bytes covered by `g` granules.
pub fn granules_to_bytes(g: usize) -> (r: usize)
    requires
        g <= usize::MAX as int / 8,
    ensures
        r == g * 8,
{
    g * GRANULE_BYTES
}

/// The index, within its arena, of the block holding byte address `p`.
pub fn block_index_of(p: usize) -> (r: usize)
    ensures
        r == (p as int % 1048576) / 8192,
        r < 128,
{
    (p % ARENA_BYTES) / BLOCK_BYTES
}

/// The byte address of the first granule of the arena holding `p`.
pub fn arena_base_of(p: usize) -> (r: usize)
    ensures
        r == p as int - p as int % 1048576,
        r % 1048576 == 0,
{
    p - p % ARENA_BYTES
}

/// The byte address of the descriptor slot governing the block that holds
/// byte address `p`. Descriptors are packed at the start of each arena, one
/// `DESCRIPTOR_BYTES` slot per block, so the lookup is pure arithmetic.
pub fn descriptor_of(p: usize) -> (r: usize)
    ensures
        r == p as int - p as int % 1048576 + ((p as int % 1048576) / 8192) * 64,
{
    let base = arena_base_of(p);
    let index = block_index_of(p);
    proof {
        assert(index * 64 <= index * 8192) by (nonlinear_arith)
            requires
                index >= 0,
        ;
        assert(index * 8192 <= p as int % 1048576) by (nonlinear_arith)
            requires
                index == (p as int % 1048576) / 8192,
                p as int % 1048576 >= 0,
        ;
    }
    base + index * DESCRIPTOR_BYTES
}

} // verus!
