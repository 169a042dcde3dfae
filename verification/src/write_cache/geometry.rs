//! Where blocks lie on the device and which blocks a byte range touches.

use vstd::prelude::*;
use vstd::arithmetic::div_mod::{lemma_div_is_ordered, lemma_fundamental_div_mod, lemma_mod_bound};
use crate::write_cache::config::ceil_div;

verus! {

/// The first byte of a block.
pub open spec fn block_start(block: int, block_size: int) -> int {
    block * block_size
}

/// How many bytes of a block lie on the device: all of them but for the last
/// block of a device whose size is no multiple of the block size.
pub open spec fn valid_len(block: int, block_size: int, device_size: int) -> int {
    let left = device_size - block_start(block, block_size);
    if left <= 0 {
        0
    } else if left < block_size {
        left
    } else {
        block_size
    }
}

/// The first block that a range starting at `offset` touches.
pub open spec fn first_block(offset: int, block_size: int) -> int {
    offset / block_size
}

/// The last block that the range of `len > 0` bytes at `offset` touches.
pub open spec fn last_block(offset: int, len: int, block_size: int) -> int {
    (offset + len - 1) / block_size
}

/// A block of the device starts before the device ends.
pub proof fn lemma_block_on_device(block: int, block_size: int, device_size: int)
    requires
        block_size > 0,
        device_size >= 0,
        0 <= block < ceil_div(device_size, block_size),
    ensures
        0 <= block_start(block, block_size) < device_size,
        0 < valid_len(block, block_size, device_size) <= block_size,
        block_start(block, block_size) + valid_len(block, block_size, device_size) <= device_size,
{
    lemma_fundamental_div_mod(device_size, block_size);
    let whole = device_size / block_size;
    assert(0 <= block * block_size) by (nonlinear_arith)
        requires
            0 <= block,
            block_size > 0,
    ;
    if device_size % block_size == 0 {
        assert((block + 1) * block_size <= whole * block_size) by (nonlinear_arith)
            requires
                block + 1 <= whole,
                block_size > 0,
        ;
        assert(block * block_size + block_size == (block + 1) * block_size) by (nonlinear_arith);
        assert(block_size * whole == whole * block_size) by (nonlinear_arith);
    } else {
        lemma_mod_bound(device_size, block_size);
        assert(block * block_size <= whole * block_size) by (nonlinear_arith)
            requires
                block <= whole,
                block_size > 0,
        ;
        assert(block_size * whole == whole * block_size) by (nonlinear_arith);
    }
}

/// The blocks of a range inside the device are blocks of the device, in order.
pub proof fn lemma_range_blocks(offset: int, len: int, block_size: int, device_size: int)
    requires
        block_size > 0,
        0 <= offset,
        0 < len,
        offset + len <= device_size,
    ensures
        0 <= first_block(offset, block_size) <= last_block(offset, len, block_size),
        last_block(offset, len, block_size) < ceil_div(device_size, block_size),
        block_start(first_block(offset, block_size), block_size) <= offset,
        offset < block_start(first_block(offset, block_size), block_size) + block_size,
        block_start(last_block(offset, len, block_size), block_size) < offset + len,
        offset + len <= block_start(last_block(offset, len, block_size), block_size) + block_size,
{
    let end = offset + len - 1;
    lemma_div_is_ordered(offset, end, block_size);
    lemma_div_is_ordered(0, offset, block_size);
    assert(0int / block_size == 0) by (nonlinear_arith)
        requires
            block_size > 0,
    ;
    lemma_fundamental_div_mod(offset, block_size);
    lemma_fundamental_div_mod(end, block_size);
    lemma_fundamental_div_mod(device_size, block_size);
    lemma_mod_bound(offset, block_size);
    lemma_mod_bound(end, block_size);
    lemma_mod_bound(device_size, block_size);
    let fb = offset / block_size;
    let lb = end / block_size;
    let whole = device_size / block_size;
    assert(block_size * fb == fb * block_size) by (nonlinear_arith);
    assert(block_size * lb == lb * block_size) by (nonlinear_arith);
    assert(block_size * whole == whole * block_size) by (nonlinear_arith);
    if lb > whole {
        assert(lb * block_size >= (whole + 1) * block_size) by (nonlinear_arith)
            requires
                lb >= whole + 1,
                block_size > 0,
        ;
        assert((whole + 1) * block_size == whole * block_size + block_size) by (nonlinear_arith);
        assert(false);
    }
    if device_size % block_size == 0 && lb == whole {
        assert(false);
    }
}

/// Number of bytes of block `block` that lie on the device.
pub fn valid_bytes(block: u64, block_size: usize, device_size: u64) -> (n: usize)
    requires
        block * block_size <= u64::MAX,
    ensures
        n == valid_len(block as int, block_size as int, device_size as int),
{
    let offset: u64 = block * block_size as u64;
    let left: u64 = device_size.saturating_sub(offset);
    if left < block_size as u64 {
        left as usize
    } else {
        block_size
    }
}

/// A byte of the device lies in the block that it is reckoned to and in no other, and
/// within the bytes of that block that lie on the device.
pub proof fn law_each_byte_has_one_block(x: int, block: int, block_size: int, device_size: int)
    requires
        block_size > 0,
        0 <= x < device_size,
    ensures
        0 <= first_block(x, block_size) < ceil_div(device_size, block_size),
        block == first_block(x, block_size) <==> block * block_size <= x < block * block_size
            + block_size,
        block == first_block(x, block_size) <==> block * block_size <= x < block * block_size
            + valid_len(block, block_size, device_size),
        last_block(x, 1, block_size) == first_block(x, block_size),
{
    lemma_range_blocks(x, 1, block_size, device_size);
    let b = first_block(x, block_size);
    if block < b {
        assert((block + 1) * block_size <= b * block_size) by (nonlinear_arith)
            requires
                block + 1 <= b,
                block_size > 0,
        ;
        assert((block + 1) * block_size == block * block_size + block_size) by (nonlinear_arith);
    } else if block > b {
        assert((b + 1) * block_size <= block * block_size) by (nonlinear_arith)
            requires
                b + 1 <= block,
                block_size > 0,
        ;
        assert((b + 1) * block_size == b * block_size + block_size) by (nonlinear_arith);
    }
}

/// The bytes of a block that lie on the device are those before its end.
pub proof fn law_valid_bytes(block: u64, block_size: usize, device_size: u64, n: usize, i: int)
    requires
        call_ensures(valid_bytes, (block, block_size, device_size), n),
        0 <= i < block_size,
    ensures
        n <= block_size,
        i < n <==> block * block_size + i < device_size,
{
}

/// The blocks that a range touches are those that overlap with it.
pub proof fn law_range_touches_blocks(offset: int, len: int, block_size: int, block: int)
    requires
        block_size > 0,
        0 <= offset,
        0 < len,
    ensures
        first_block(offset, block_size) <= block <= last_block(offset, len, block_size) <==> block
            * block_size < offset + len && offset < block * block_size + block_size,
{
    let here = block * block_size;
    lemma_range_blocks(offset, len, block_size, offset + len);
    let f = first_block(offset, block_size);
    let l = last_block(offset, len, block_size);
    if f <= block {
        assert(f * block_size <= here) by (nonlinear_arith)
            requires
                here == block * block_size,
                f <= block,
                block_size > 0,
        ;
    } else {
        assert(here + block_size <= f * block_size) by (nonlinear_arith)
            requires
                here == block * block_size,
                block + 1 <= f,
                block_size > 0,
        ;
    }
    if block <= l {
        assert(here <= l * block_size) by (nonlinear_arith)
            requires
                here == block * block_size,
                block <= l,
                block_size > 0,
        ;
    } else {
        assert(l * block_size + block_size <= here) by (nonlinear_arith)
            requires
                here == block * block_size,
                l + 1 <= block,
                block_size > 0,
        ;
    }
}

} // verus!
