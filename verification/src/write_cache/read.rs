//! The read path: which file or object holds each block of a read, and how the
//! blocks are put together.

use vstd::prelude::*;
use vstd::slice::slice_subrange;
use vstd::string::StringExecFns;
use crate::write_cache::config::ceil_div;
use crate::write_cache::error::CacheError;
use crate::write_cache::geometry::{
    block_start, first_block, last_block, law_range_touches_blocks, lemma_range_blocks, valid_bytes,
    valid_len,
};
use crate::write_cache::init::BlockCopy;
use crate::write_cache::inner::{all_zero, is_zero_block, CacheState};
use crate::write_cache::state_map::SparseBlockState;
use crate::write_cache::{Active, WriteCache};

verus! {

/// Where the local copy of a block is.
#[derive(Clone, Copy, Debug, PartialEq, Eq, Structural)]
pub enum LocalRead {
    /// The block lies beyond the device: all zeros.
    Beyond,
    /// There is no local copy.
    Evicted,
    /// Read the bytes from the flushing file and fill the block up with zeros.
    Flushing(BlockCopy),
    /// Read the bytes from the active file and fill the block up with zeros.
    Active(BlockCopy),
}

/// How a read is served.
#[derive(Clone, Copy, Debug, PartialEq, Eq, Structural)]
pub enum ReadStart {
    /// Nothing is to be read.
    Empty,
    /// Every block is in the active file: one read serves all.
    Pread(BlockCopy),
    /// The blocks from `first` to `last` have to be resolved one by one.
    Blocks { first: u64, last: u64 },
}

/// Where the local copy of a block is. A block that a flush has claimed lies in
/// the flushing file as long as that is open; the active file has nothing for
/// it.
pub open spec fn local_read(s: CacheState, block: int) -> LocalRead {
    let copy = BlockCopy {
        offset: block_start(block, s.bs()) as u64,
        len: valid_len(block, s.bs(), s.ds()) as usize,
    };
    if block_start(block, s.bs()) >= s.ds() {
        LocalRead::Beyond
    } else if s.state(block) == SparseBlockState::NOT_PRESENT {
        LocalRead::Evicted
    } else if s.state(block) == SparseBlockState::SYNCING && s.flushing_open {
        LocalRead::Flushing(copy)
    } else {
        LocalRead::Active(copy)
    }
}

/// Whether the active file alone has the newest data of the blocks `first` to
/// `last`.
pub open spec fn all_in_active(s: CacheState, first: int, last: int) -> bool {
    &&& !s.flushing_active
    &&& forall|block: int|
        first <= block <= last ==> #[trigger] s.blocks.has(block) && s.state(block)
            != SparseBlockState::NOT_PRESENT && s.state(block) != SparseBlockState::SYNCING
}

/// How a read is served, or why not.
pub open spec fn read_start(s: CacheState, offset: u64, len: usize) -> Result<
    ReadStart,
    CacheError,
> {
    if offset + len > s.ds() {
        Err(CacheError::OffsetOutOfBounds((offset + len) as u64, s.config.device_size))
    } else if len == 0 {
        Ok(ReadStart::Empty)
    } else {
        let first = first_block(offset as int, s.bs());
        let last = last_block(offset as int, len as int, s.bs());
        if all_in_active(s, first, last) {
            Ok(ReadStart::Pread(BlockCopy { offset, len }))
        } else {
            Ok(ReadStart::Blocks { first: first as u64, last: last as u64 })
        }
    }
}

impl WriteCache<Active> {
    fn blocks_in_active(&self, first: u64, last: u64) -> (yes: bool)
        requires
            self.wf(),
            last < u64::MAX,
        ensures
            yes == all_in_active(self@, first as int, last as int),
    {
        if self.inner.flushing_active {
            return false;
        }
        let num_blocks: usize = self.inner.blocks.num_blocks();
        let mut block: u64 = first;
        while block <= last
            invariant
                self.wf(),
                num_blocks == self@.num_blocks(),
                last < u64::MAX,
                !self@.flushing_active,
                first <= block,
                forall|b: int|
                    first <= b < block ==> #[trigger] self@.blocks.has(b) && self@.state(b)
                        != SparseBlockState::NOT_PRESENT && self@.state(b)
                        != SparseBlockState::SYNCING,
            decreases last + 1 - block,
        {
            if block >= num_blocks as u64 {
                assert(!self@.blocks.has(block as int));
                return false;
            }
            let state: u8 = self.inner.blocks.get(block as usize);
            if state == SparseBlockState::NOT_PRESENT || state == SparseBlockState::SYNCING {
                assert(self@.blocks.has(block as int));
                return false;
            }
            proof {
                let here = block as int;
                assert(state == self@.state(here));
                assert forall|b: int| first <= b < here + 1 implies #[trigger] self@.blocks.has(b)
                    && self@.state(b) != SparseBlockState::NOT_PRESENT && self@.state(b)
                    != SparseBlockState::SYNCING by {
                    if b < here {
                        assert(self@.blocks.has(b));
                    }
                }
            }
            block = block + 1;
        }
        assert(all_in_active(self@, first as int, last as int));
        true
    }

    /// Whether a range can be read with one read of the active file. Otherwise
    /// the caller falls back to `read`.
    pub fn try_pread_local(&self, offset: u64, len: usize) -> (yes: bool)
        requires
            self.wf(),
            0 < offset + len <= u64::MAX,
        ensures
            yes == all_in_active(
                self@,
                first_block(offset as int, self@.bs()),
                last_block(offset as int, len as int, self@.bs()),
            ),
    {
        let block_size: u64 = self.inner.config.block_size as u64;
        let end: u64 = offset + len as u64 - 1;
        assert(end / block_size <= end) by (nonlinear_arith)
            requires
                block_size >= 1,
        ;
        self.blocks_in_active(offset / block_size, end / block_size)
    }

    /// Read data from the local cache only: where to read it, or nothing for an
    /// empty read. Blocks that are not present read as zeros.
    pub fn read_local(&self, offset: u64, len: usize) -> (result: Result<
        Option<BlockCopy>,
        CacheError,
    >)
        requires
            offset + len <= u64::MAX,
        ensures
            result == (if offset + len > self@.ds() {
                Err::<Option<BlockCopy>, CacheError>(
                    CacheError::OffsetOutOfBounds((offset + len) as u64, self@.config.device_size),
                )
            } else if len == 0 {
                Ok::<Option<BlockCopy>, CacheError>(None)
            } else {
                Ok::<Option<BlockCopy>, CacheError>(Some(BlockCopy { offset, len }))
            }),
    {
        let end: u64 = offset + len as u64;
        if end > self.inner.config.device_size {
            return Err(CacheError::offset_out_of_bounds(end, self.inner.config.device_size));
        }
        if len == 0 {
            return Ok(None);
        }
        Ok(Some(BlockCopy { offset, len }))
    }

    /// As `read_local`.
    pub fn read_local_only(&self, offset: u64, len: usize) -> (result: Result<
        Option<BlockCopy>,
        CacheError,
    >)
        requires
            offset + len <= u64::MAX,
        ensures
            result == (if offset + len > self@.ds() {
                Err::<Option<BlockCopy>, CacheError>(
                    CacheError::OffsetOutOfBounds((offset + len) as u64, self@.config.device_size),
                )
            } else if len == 0 {
                Ok::<Option<BlockCopy>, CacheError>(None)
            } else {
                Ok::<Option<BlockCopy>, CacheError>(Some(BlockCopy { offset, len }))
            }),
    {
        self.read_local(offset, len)
    }

    /// Where the local copy of a block is. The state is looked at under the lock
    /// that keeps the files from being swapped, so that a block evicted since the
    /// caller's own check is noticed.
    pub fn sync_read_local_block(&self, block_num: u64) -> (at: LocalRead)
        requires
            self.wf(),
            block_num * self@.bs() <= u64::MAX,
        ensures
            at == local_read(self@, block_num as int),
    {
        let block_size: usize = self.inner.config.block_size;
        let device_size: u64 = self.inner.config.device_size;
        let offset: u64 = block_num * block_size as u64;
        if offset >= device_size {
            return LocalRead::Beyond;
        }
        proof {
            lemma_starts_on_device(block_num as int, self@.bs(), self@.ds());
        }
        let len: usize = valid_bytes(block_num, block_size, device_size);
        let state: u8 = self.inner.blocks.get(block_num as usize);
        if state == SparseBlockState::NOT_PRESENT {
            return LocalRead::Evicted;
        }
        if state == SparseBlockState::SYNCING && self.inner.flushing_open {
            return LocalRead::Flushing(BlockCopy { offset, len });
        }
        LocalRead::Active(BlockCopy { offset, len })
    }

    /// As `sync_read_local_block`, for a caller that takes an absent block as
    /// zeros.
    pub fn read_local_block(&self, block_num: u64) -> (at: LocalRead)
        requires
            self.wf(),
            block_num * self@.bs() <= u64::MAX,
        ensures
            at == local_read(self@, block_num as int),
    {
        self.sync_read_local_block(block_num)
    }

    /// Decides how a read is served.
    pub fn read(&self, offset: u64, len: usize) -> (result: Result<ReadStart, CacheError>)
        requires
            self.wf(),
            offset + len <= u64::MAX,
        ensures
            result == read_start(self@, offset, len),
    {
        match self.read_local(offset, len) {
            Err(e) => Err(e),
            Ok(None) => Ok(ReadStart::Empty),
            Ok(Some(copy)) => {
                if self.try_pread_local(offset, len) {
                    return Ok(ReadStart::Pread(copy));
                }
                let block_size: u64 = self.inner.config.block_size as u64;
                Ok(
                    ReadStart::Blocks {
                        first: offset / block_size,
                        last: (offset + len as u64 - 1) / block_size,
                    },
                )
            },
        }
    }
}

/// A block that starts on the device is one of its blocks.
proof fn lemma_starts_on_device(block: int, block_size: int, device_size: int)
    requires
        block_size > 0,
        0 <= block,
        block_start(block, block_size) < device_size,
    ensures
        block < ceil_div(device_size, block_size),
{
    assert(block * block_size >= 0) by (nonlinear_arith)
        requires
            block >= 0,
            block_size > 0,
    ;
    lemma_range_blocks(block * block_size, 1, block_size, device_size);
    vstd::arithmetic::div_mod::lemma_div_multiples_vanish(block, block_size);
    assert(block * block_size == block_size * block) by (nonlinear_arith);
}

/// The first byte of the `i`th block of a read that belongs to the read.
pub open spec fn slice_from(offset: int, block_size: int, i: int) -> int {
    if i == 0 {
        offset - block_start(first_block(offset, block_size), block_size)
    } else {
        0
    }
}

/// The end of the bytes of the `i`th block of a read that belong to the read, in
/// a block of `block_len` bytes.
pub open spec fn slice_to(offset: int, len: int, block_size: int, i: int, block_len: int) -> int {
    let block = first_block(offset, block_size) + i;
    let end = offset + len - block_start(block, block_size);
    if block == last_block(offset, len, block_size) && end < block_len {
        end
    } else {
        block_len
    }
}

/// How many blocks a read touches.
pub open spec fn blocks_touched(offset: int, len: int, block_size: int) -> int {
    last_block(offset, len, block_size) - first_block(offset, block_size) + 1
}

/// What the first `n` blocks of a read contribute to it.
pub open spec fn assembled(
    blocks: Seq<Option<Vec<u8>>>,
    offset: int,
    len: int,
    block_size: int,
    n: nat,
) -> Seq<u8>
    decreases n,
{
    if n == 0 {
        Seq::empty()
    } else {
        let block = blocks[n - 1]->Some_0@;
        assembled(blocks, offset, len, block_size, (n - 1) as nat) + block.subrange(
            slice_from(offset, block_size, n - 1),
            slice_to(offset, len, block_size, n - 1, block.len() as int),
        )
    }
}

/// Whether an error says that a block of a read is missing.
pub open spec fn is_missing_block(e: CacheError, text: Seq<char>) -> bool {
    e matches CacheError::DecompressFailed(message) && message@ == text
}

/// Puts the blocks of a read of `len` bytes at `offset` together, in order. The
/// `i`th block of the read is `blocks[i]`; one that could not be resolved is an
/// error.
pub fn assemble_read(
    blocks: &Vec<Option<Vec<u8>>>,
    offset: u64,
    len: usize,
    block_size: usize,
) -> (result: Result<Vec<u8>, CacheError>)
    requires
        block_size > 0,
        0 < len,
        offset + len <= u64::MAX,
        blocks@.len() == blocks_touched(offset as int, len as int, block_size as int),
        blocks@[0] matches Some(block) ==> slice_from(offset as int, block_size as int, 0)
            <= block@.len(),
    ensures
        match result {
            Ok(data) => (forall|i: int|
                0 <= i < blocks@.len() ==> (#[trigger] blocks@[i]) is Some) && data@ == assembled(
                blocks@,
                offset as int,
                len as int,
                block_size as int,
                blocks@.len(),
            ),
            Err(e) => (exists|i: int|
                0 <= i < blocks@.len() && (#[trigger] blocks@[i]) is None) && is_missing_block(
                e,
                "missing block in coalesced read"@,
            ),
        },
{
    let bs: u64 = block_size as u64;
    let first: u64 = offset / bs;
    let last: u64 = (offset + len as u64 - 1) / bs;
    proof {
        lemma_range_blocks(offset as int, len as int, bs as int, u64::MAX as int);
    }
    let mut data: Vec<u8> = Vec::new();
    let mut i: usize = 0;
    while i < blocks.len()
        invariant
            i <= blocks@.len(),
            bs == block_size,
            bs > 0,
            0 < len,
            offset + len <= u64::MAX,
            first == first_block(offset as int, bs as int),
            last == last_block(offset as int, len as int, bs as int),
            first <= last,
            block_start(first as int, bs as int) <= offset,
            block_start(last as int, bs as int) < offset + len,
            blocks@.len() == last - first + 1,
            blocks@[0] matches Some(block) ==> slice_from(offset as int, bs as int, 0)
                <= block@.len(),
            forall|j: int| 0 <= j < i ==> (#[trigger] blocks@[j]) is Some,
            data@ == assembled(blocks@, offset as int, len as int, bs as int, i as nat),
        decreases blocks@.len() - i,
    {
        match &blocks[i] {
            None => {
                assert(blocks@[i as int] is None);
                return Err(
                    CacheError::DecompressFailed(
                        String::from_str("missing block in coalesced read"),
                    ),
                );
            },
            Some(block) => {
                let number: u64 = first + i as u64;
                assert(number * bs <= last * bs) by (nonlinear_arith)
                    requires
                        number <= last,
                ;
                let start: u64 = number * bs;
                let from: usize = if i == 0 {
                    (offset - start) as usize
                } else {
                    0
                };
                let end: u64 = offset + len as u64 - start;
                proof {
                    if number < last {
                        assert((number + 1) * bs <= last * bs) by (nonlinear_arith)
                            requires
                                number + 1 <= last,
                        ;
                        assert((number + 1) * bs == number * bs + bs) by (nonlinear_arith);
                    }
                }
                let to: usize = if number == last && end < block.len() as u64 {
                    end as usize
                } else {
                    block.len()
                };
                let part: &[u8] = slice_subrange(block.as_slice(), from, to);
                data.extend_from_slice(part);
                assert(data@ =~= assembled(
                    blocks@,
                    offset as int,
                    len as int,
                    bs as int,
                    (i + 1) as nat,
                ));
            },
        }
        i = i + 1;
    }
    Ok(data)
}

/// Source of data for a single chunk in a read plan.
pub enum ChunkSource {
    /// Block is all zeros.
    Zero,
    /// Block data already in memory.
    InMemory(Vec<u8>),
}

/// One entry in a read plan: a chunk source plus the slice within that chunk
/// needed to satisfy the original read request.
pub struct ChunkPlanEntry {
    pub source: ChunkSource,
    /// Byte offset within the chunk to start copying from.
    pub slice_start: usize,
    /// Number of bytes to copy from this chunk.
    pub slice_len: usize,
}

/// A fully-resolved read plan: a sequence of chunk entries that together cover
/// the requested byte range.
pub struct ReadPlan {
    pub entries: Vec<ChunkPlanEntry>,
}

/// Whether a source stands for the data of a block. A block of zeros is never
/// copied.
pub open spec fn source_of(source: ChunkSource, block: Seq<u8>) -> bool {
    match source {
        ChunkSource::Zero => all_zero(block),
        ChunkSource::InMemory(data) => !all_zero(block) && data@ == block,
    }
}

/// Whether the `i`th entry of a plan is the slice that the `i`th block
/// contributes to the read.
pub open spec fn plan_entry_ok(
    entry: ChunkPlanEntry,
    block: Seq<u8>,
    offset: int,
    len: int,
    block_size: int,
    i: int,
) -> bool {
    &&& source_of(entry.source, block)
    &&& entry.slice_start == slice_from(offset, block_size, i)
    &&& entry.slice_start + entry.slice_len == slice_to(offset, len, block_size, i, block_size)
}

/// Builds the plan of a read of `len` bytes at `offset` from the data of its
/// blocks.
pub fn build_read_plan(
    blocks: Vec<Option<Vec<u8>>>,
    offset: u64,
    len: usize,
    block_size: usize,
) -> (result: Result<ReadPlan, CacheError>)
    requires
        block_size > 0,
        0 < len,
        offset + len <= u64::MAX,
        blocks@.len() == blocks_touched(offset as int, len as int, block_size as int),
    ensures
        match result {
            Ok(plan) => plan.entries@.len() == blocks@.len() && forall|i: int|
                0 <= i < blocks@.len() ==> (#[trigger] blocks@[i] matches Some(block)
                    && plan_entry_ok(
                    plan.entries@[i],
                    block@,
                    offset as int,
                    len as int,
                    block_size as int,
                    i,
                )),
            Err(e) => (exists|i: int|
                0 <= i < blocks@.len() && (#[trigger] blocks@[i]) is None) && is_missing_block(
                e,
                "missing block in coalesced read plan"@,
            ),
        },
{
    let bs: u64 = block_size as u64;
    let first: u64 = offset / bs;
    let last: u64 = (offset + len as u64 - 1) / bs;
    proof {
        lemma_range_blocks(offset as int, len as int, bs as int, u64::MAX as int);
    }
    let ghost all = blocks@;
    let mut entries: Vec<ChunkPlanEntry> = Vec::new();
    for block in it: blocks
        invariant
            it.seq() == all,
            bs == block_size,
            bs > 0,
            0 < len,
            offset + len <= u64::MAX,
            first == first_block(offset as int, bs as int),
            last == last_block(offset as int, len as int, bs as int),
            first <= last,
            block_start(first as int, bs as int) <= offset < block_start(first as int, bs as int)
                + bs,
            block_start(last as int, bs as int) < offset + len <= block_start(
                last as int,
                bs as int,
            ) + bs,
            all.len() == last - first + 1,
            entries@.len() == it.index(),
            forall|i: int|
                0 <= i < it.index() ==> (#[trigger] all[i] matches Some(block) && plan_entry_ok(
                    entries@[i],
                    block@,
                    offset as int,
                    len as int,
                    block_size as int,
                    i,
                )),
    {
        let ghost k = it.index();
        let ghost entries0 = entries@;
        let i: usize = entries.len();
        match block {
            None => {
                assert(all[k] is None);
                return Err(
                    CacheError::DecompressFailed(
                        String::from_str("missing block in coalesced read plan"),
                    ),
                );
            },
            Some(block) => {
                let number: u64 = first + i as u64;
                assert(number * bs <= last * bs) by (nonlinear_arith)
                    requires
                        number <= last,
                ;
                let start: u64 = number * bs;
                let from: usize = if i == 0 {
                    (offset - start) as usize
                } else {
                    0
                };
                let end: u64 = offset + len as u64 - start;
                let to: usize = if number == last && end < bs {
                    end as usize
                } else {
                    block_size
                };
                let ghost bytes = block@;
                let source = if is_zero_block(block.as_slice()) {
                    ChunkSource::Zero
                } else {
                    ChunkSource::InMemory(block)
                };
                let entry = ChunkPlanEntry { source, slice_start: from, slice_len: to - from };
                assert(plan_entry_ok(
                    entry,
                    bytes,
                    offset as int,
                    len as int,
                    block_size as int,
                    k,
                ));
                entries.push(entry);
                assert forall|j: int| 0 <= j <= k implies (#[trigger] all[j] matches Some(block)
                    && plan_entry_ok(
                    entries@[j],
                    block@,
                    offset as int,
                    len as int,
                    block_size as int,
                    j,
                )) by {
                    if j < k {
                        assert(entries@[j] == entries0[j]);
                    }
                }
            },
        }
    }
    Ok(ReadPlan { entries })
}

/// Whether the blocks of a read are those of a device with contents `dev`. The last
/// block of the device may be longer than what lies on the device.
pub open spec fn blocks_of_device(
    blocks: Seq<Option<Vec<u8>>>,
    dev: Seq<u8>,
    offset: int,
    block_size: int,
) -> bool {
    forall|i: int|
        0 <= i < blocks.len() ==> ((#[trigger] blocks[i]) matches Some(block) && is_block_of(
            block@,
            dev,
            first_block(offset, block_size) + i,
            block_size,
        ))
}

/// Whether `data` is a block of a device with contents `dev`.
pub open spec fn is_block_of(data: Seq<u8>, dev: Seq<u8>, block: int, block_size: int) -> bool {
    let start = block_start(block, block_size);
    let len = valid_len(block, block_size, dev.len() as int);
    &&& len <= data.len() <= block_size
    &&& data.take(len) == dev.subrange(start, start + len)
}

/// A read gives the bytes of the device: put together from its blocks, the result
/// is exactly the range asked for.
pub proof fn law_assembled_is_device_range(
    blocks: Seq<Option<Vec<u8>>>,
    dev: Seq<u8>,
    offset: int,
    len: int,
    block_size: int,
)
    requires
        block_size > 0,
        0 <= offset,
        0 < len,
        offset + len <= dev.len(),
        blocks.len() == blocks_touched(offset, len, block_size),
        blocks_of_device(blocks, dev, offset, block_size),
    ensures
        assembled(blocks, offset, len, block_size, blocks.len()) == dev.subrange(
            offset,
            offset + len,
        ),
{
    lemma_range_blocks(offset, len, block_size, offset + len);
    lemma_assembled_prefix(blocks, dev, offset, len, block_size, blocks.len());
}

proof fn lemma_assembled_prefix(
    blocks: Seq<Option<Vec<u8>>>,
    dev: Seq<u8>,
    offset: int,
    len: int,
    block_size: int,
    n: nat,
)
    requires
        block_size > 0,
        0 <= offset,
        0 < len,
        blocks.len() == blocks_touched(offset, len, block_size),
        0 < n <= blocks.len(),
        offset + len <= dev.len(),
        blocks_of_device(blocks, dev, offset, block_size),
    ensures
        assembled(blocks, offset, len, block_size, n) == dev.subrange(
            offset,
            if n == blocks.len() {
                offset + len
            } else {
                block_start(first_block(offset, block_size) + n, block_size)
            },
        ),
    decreases n,
{
    lemma_range_blocks(offset, len, block_size, offset + len);
    let first = first_block(offset, block_size);
    let last = last_block(offset, len, block_size);
    let k = first + n - 1;
    let here = block_start(k, block_size);
    assert(block_start(k + 1, block_size) == here + block_size) by (nonlinear_arith)
        requires
            here == k * block_size,
            block_start(k + 1, block_size) == (k + 1) * block_size,
    ;
    assert(k * block_size <= last * block_size) by (nonlinear_arith)
        requires
            k <= last,
            block_size > 0,
    ;
    assert(first * block_size <= k * block_size) by (nonlinear_arith)
        requires
            first <= k,
            block_size > 0,
    ;
    let block = blocks[n - 1]->Some_0@;
    assert(blocks[n - 1] is Some);
    assert(is_block_of(block, dev, k, block_size));
    if k < last {
        assert((k + 1) * block_size <= last * block_size) by (nonlinear_arith)
            requires
                k + 1 <= last,
                block_size > 0,
        ;
    }
    let valid = valid_len(k, block_size, dev.len() as int);
    assert forall|i: int| 0 <= i < valid implies block[i] == dev[here + i] by {
        assert(block.take(valid)[i] == dev.subrange(here, here + valid)[i]);
    }
    if n == 1 {
        assert(assembled(blocks, offset, len, block_size, 0) =~= Seq::<u8>::empty());
        assert(assembled(blocks, offset, len, block_size, 1) =~= block.subrange(
            slice_from(offset, block_size, 0),
            slice_to(offset, len, block_size, 0, block.len() as int),
        ));
        assert(assembled(blocks, offset, len, block_size, n) =~= dev.subrange(
            offset,
            if n == blocks.len() {
                offset + len
            } else {
                block_start(first + n, block_size)
            },
        ));
    } else {
        lemma_assembled_prefix(blocks, dev, offset, len, block_size, (n - 1) as nat);
        assert((first + 1) * block_size <= k * block_size) by (nonlinear_arith)
            requires
                first + 1 <= k,
                block_size > 0,
        ;
        assert((first + 1) * block_size == first * block_size + block_size) by (nonlinear_arith);
        assert(assembled(blocks, offset, len, block_size, (n - 1) as nat) == dev.subrange(
            offset,
            here,
        ));
        assert(assembled(blocks, offset, len, block_size, n) =~= dev.subrange(
            offset,
            if n == blocks.len() {
                offset + len
            } else {
                block_start(first + n, block_size)
            },
        ));
    }
}

/// Whether `blocks` holds the contents of a device from block `first` on: byte `j` of each
/// block is the byte of the device that lies there.
pub open spec fn hold_device(
    blocks: Seq<Option<Vec<u8>>>,
    dev: Seq<u8>,
    first: int,
    block_size: int,
) -> bool {
    forall|i: int, j: int|
        #![trigger blocks[i]->Some_0@[j]]
        0 <= i < blocks.len() && 0 <= j < block_size && (first + i) * block_size + j < dev.len()
            ==> (blocks[i] matches Some(block) && j < block@.len() && block@[j] == dev[(first + i)
            * block_size + j])
}

/// What an entry of a plan stands for: a slice of its data, or as many zeros.
pub open spec fn entry_bytes(entry: ChunkPlanEntry) -> Seq<u8> {
    match entry.source {
        ChunkSource::Zero => Seq::new(entry.slice_len as nat, |j: int| 0u8),
        ChunkSource::InMemory(data) => data@.subrange(
            entry.slice_start as int,
            entry.slice_start + entry.slice_len,
        ),
    }
}

/// What a plan stands for: its entries, one after the other.
pub open spec fn plan_bytes(entries: Seq<ChunkPlanEntry>) -> Seq<u8>
    decreases entries.len(),
{
    if entries.len() == 0 {
        Seq::empty()
    } else {
        plan_bytes(entries.drop_last()) + entry_bytes(entries.last())
    }
}

/// A read plan gives the bytes of the device: what its entries stand for, one after the
/// other, is exactly the range asked for.
pub proof fn law_plan_is_device_range(
    plan: ReadPlan,
    blocks: Seq<Option<Vec<u8>>>,
    dev: Seq<u8>,
    offset: int,
    len: int,
    block_size: int,
)
    requires
        block_size > 0,
        0 <= offset,
        0 < len,
        offset + len <= dev.len(),
        blocks.len() == (offset + len - 1) / block_size - offset / block_size + 1,
        hold_device(blocks, dev, offset / block_size, block_size),
        plan.entries@.len() == blocks.len(),
        forall|i: int|
            0 <= i < blocks.len() ==> (#[trigger] blocks[i] matches Some(block) && plan_entry_ok(
                plan.entries@[i],
                block@,
                offset,
                len,
                block_size,
                i,
            )),
    ensures
        plan_bytes(plan.entries@) == dev.subrange(offset, offset + len),
{
    lemma_range_blocks(offset, len, block_size, offset + len);
    lemma_plan_prefix(plan.entries@, blocks, dev, offset, len, block_size, blocks.len());
    assert(plan.entries@.take(blocks.len() as int) =~= plan.entries@);
}

proof fn lemma_plan_prefix(
    entries: Seq<ChunkPlanEntry>,
    blocks: Seq<Option<Vec<u8>>>,
    dev: Seq<u8>,
    offset: int,
    len: int,
    block_size: int,
    n: nat,
)
    requires
        block_size > 0,
        0 <= offset,
        0 < len,
        offset + len <= dev.len(),
        blocks.len() == blocks_touched(offset, len, block_size),
        0 < n <= blocks.len(),
        hold_device(blocks, dev, first_block(offset, block_size), block_size),
        entries.len() == blocks.len(),
        forall|i: int|
            0 <= i < blocks.len() ==> (#[trigger] blocks[i] matches Some(block) && plan_entry_ok(
                entries[i],
                block@,
                offset,
                len,
                block_size,
                i,
            )),
    ensures
        plan_bytes(entries.take(n as int)) == dev.subrange(
            offset,
            if n == blocks.len() {
                offset + len
            } else {
                block_start(first_block(offset, block_size) + n, block_size)
            },
        ),
    decreases n,
{
    lemma_range_blocks(offset, len, block_size, offset + len);
    let first = first_block(offset, block_size);
    let last = last_block(offset, len, block_size);
    let k = first + n - 1;
    let here = block_start(k, block_size);
    let end = if n == blocks.len() {
        offset + len
    } else {
        block_start(first + n, block_size)
    };
    assert(block_start(k + 1, block_size) == here + block_size) by (nonlinear_arith)
        requires
            here == k * block_size,
            block_start(k + 1, block_size) == (k + 1) * block_size,
    ;
    assert(first * block_size <= k * block_size <= last * block_size) by (nonlinear_arith)
        requires
            first <= k <= last,
            block_size > 0,
    ;
    if k < last {
        assert((k + 1) * block_size <= last * block_size) by (nonlinear_arith)
            requires
                k + 1 <= last,
                block_size > 0,
        ;
    }
    let from = if n == 1 {
        offset
    } else {
        here
    };
    let upto = entries.take(n as int);
    let before = entries.take(n - 1);
    assert(upto.drop_last() =~= before);
    assert(upto.last() == entries[n - 1]);
    assert(blocks[n - 1] is Some);
    let block = blocks[n - 1]->Some_0@;
    let entry = entries[n - 1];
    assert(plan_entry_ok(entry, block, offset, len, block_size, n - 1));
    assert(from == here + entry.slice_start);
    assert(end == here + entry.slice_start + entry.slice_len);
    assert forall|j: int| 0 <= j < end - here implies j < block.len() && #[trigger] block[j]
        == dev[here + j] by {
        assert(blocks[n - 1]->Some_0@[j] == block[j]);
        assert((first + (n - 1)) * block_size + j < dev.len());
    }
    if end - here > 0 {
        let top = end - here - 1;
        assert(block[top] == dev[here + top]);
    }
    assert(end - here <= block.len());
    assert forall|i: int| 0 <= i < end - from implies entry_bytes(entry)[i] == dev[from + i] by {
        let j = entry.slice_start + i;
        assert(block[j] == dev[here + j]);
    }
    assert(entry_bytes(entry) =~= dev.subrange(from, end));
    if n == 1 {
        assert(before =~= Seq::empty());
        assert(plan_bytes(before) =~= Seq::empty());
        assert(plan_bytes(upto) =~= dev.subrange(offset, end));
    } else {
        assert((first + 1) * block_size <= k * block_size) by (nonlinear_arith)
            requires
                first + 1 <= k,
                block_size > 0,
        ;
        assert((first + 1) * block_size == first * block_size + block_size) by (nonlinear_arith);
        lemma_plan_prefix(entries, blocks, dev, offset, len, block_size, (n - 1) as nat);
        assert(plan_bytes(upto) =~= dev.subrange(offset, end));
    }
}

/// Only what is needed is copied: an entry of a plan has data in memory exactly if its
/// block is not all zeros.
pub proof fn law_plan_copies_no_zeros(entry: ChunkPlanEntry, block: Seq<u8>, offset: int, len: int, block_size: int, i: int)
    requires
        plan_entry_ok(entry, block, offset, len, block_size, i),
    ensures
        entry.source is Zero <==> forall|j: int| 0 <= j < block.len() ==> block[j] == 0,
{
}

/// The blocks of a read, put together, are the range asked for, said of each byte of the
/// blocks.
pub proof fn law_assembled_bytes(
    blocks: Seq<Option<Vec<u8>>>,
    dev: Seq<u8>,
    offset: int,
    len: int,
    block_size: int,
)
    requires
        block_size > 0,
        0 <= offset,
        0 < len,
        offset + len <= dev.len(),
        blocks.len() == (offset + len - 1) / block_size - offset / block_size + 1,
        hold_device(blocks, dev, offset / block_size, block_size),
        forall|i: int|
            0 <= i < blocks.len() ==> (#[trigger] blocks[i] matches Some(block) && block@.len()
                <= block_size),
    ensures
        assembled(blocks, offset, len, block_size, blocks.len()) == dev.subrange(
            offset,
            offset + len,
        ),
{
    let first = offset / block_size;
    lemma_range_blocks(offset, len, block_size, offset + len);
    assert forall|i: int| 0 <= i < blocks.len() implies ((#[trigger] blocks[i]) matches Some(block)
        && is_block_of(block@, dev, first_block(offset, block_size) + i, block_size)) by {
        let block = blocks[i]->Some_0@;
        let start = block_start(first + i, block_size);
        let valid = valid_len(first + i, block_size, dev.len() as int);
        assert forall|j: int| 0 <= j < valid implies j < block.len() && #[trigger] block[j]
            == dev[start + j] by {
            assert(blocks[i]->Some_0@[j] == block[j]);
            assert((first + i) * block_size + j < dev.len());
        }
        if valid > 0 {
            assert(block[valid - 1] == dev[start + (valid - 1)]);
        }
        assert((first + i) * block_size >= 0) by (nonlinear_arith)
            requires
                first >= 0,
                i >= 0,
                block_size > 0,
        ;
        assert(valid <= block.len());
        assert((first + i) * block_size <= last_block(offset, len, block_size) * block_size)
            by (nonlinear_arith)
            requires
                first + i <= last_block(offset, len, block_size),
                block_size > 0,
        ;
        assert forall|j: int| 0 <= j < valid implies block.take(valid)[j] == dev[start + j] by {
            assert(block[j] == dev[start + j]);
        }
        assert(block.take(valid) =~= dev.subrange(start, start + valid));
    }
    law_assembled_is_device_range(blocks, dev, offset, len, block_size);
}

/// A local read takes a block from where its newest bytes are: a block that a flush has
/// claimed from the flushing file, any other that is present from the active file, and in
/// both cases the bytes that lie at its place on the device.
pub proof fn law_local_reads_are_placed(s: CacheState, block: int)
    requires
        s.bs() > 0,
        0 <= block,
        block * s.bs() <= u64::MAX,
        s.bs() <= usize::MAX,
        s.ds() <= u64::MAX,
    ensures
        block * s.bs() < s.ds() ==> match local_read(s, block) {
            LocalRead::Beyond => false,
            LocalRead::Evicted => s.blocks.states[block] == 0,
            LocalRead::Flushing(copy) => s.blocks.states[block] == 3 && s.flushing_open
                && copy.offset == block * s.bs() && copy.len > 0 && copy.len <= s.bs()
                && copy.offset + copy.len <= s.ds() && (copy.len == s.bs() || copy.offset + copy.len
                == s.ds()),
            LocalRead::Active(copy) => s.blocks.states[block] != 0 && (s.blocks.states[block] != 3
                || !s.flushing_open) && copy.offset == block * s.bs() && copy.len > 0 && copy.len
                <= s.bs() && copy.offset + copy.len <= s.ds() && (copy.len == s.bs() || copy.offset
                + copy.len == s.ds()),
        },
        block * s.bs() >= s.ds() ==> local_read(s, block) == LocalRead::Beyond,
{
    assert(block * s.bs() >= 0) by (nonlinear_arith)
        requires
            block >= 0,
            s.bs() > 0,
    ;
}

/// A read is served in full or not at all: it fails exactly if it goes beyond the device,
/// and otherwise covers every byte asked for.
pub proof fn law_reads_cover_the_range(s: CacheState, offset: u64, len: usize)
    requires
        s.bs() > 0,
        offset + len <= u64::MAX,
    ensures
        match read_start(s, offset, len) {
            Err(_) => offset + len > s.ds(),
            Ok(ReadStart::Empty) => offset + len <= s.ds() && len == 0,
            Ok(ReadStart::Pread(copy)) => offset + len <= s.ds() && len > 0 && copy.offset == offset
                && copy.len == len && !s.flushing_active,
            Ok(ReadStart::Blocks { first, last }) => offset + len <= s.ds() && len > 0 && first
                * s.bs() <= offset && offset + len <= (last + 1) * s.bs() && (first + 1) * s.bs()
                > offset && last * s.bs() < offset + len,
        },
{
    if 0 < len && offset + len <= s.ds() {
        lemma_range_blocks(offset as int, len as int, s.bs(), s.ds());
        let first = first_block(offset as int, s.bs());
        let last = last_block(offset as int, len as int, s.bs());
        assert((first + 1) * s.bs() == first * s.bs() + s.bs()) by (nonlinear_arith);
        assert((last + 1) * s.bs() == last * s.bs() + s.bs()) by (nonlinear_arith);
        assert(first <= offset && last <= offset + len) by (nonlinear_arith)
            requires
                first * s.bs() <= offset,
                last * s.bs() < offset + len,
                s.bs() >= 1,
                0 <= first,
                0 <= last,
        ;
    }
}

/// A read whose blocks hold the contents of a device gives the bytes of the device, planned or put
/// together. It fails exactly if a block is missing.
pub proof fn law_reads_give_device_bytes(
    blocks: Vec<Option<Vec<u8>>>,
    offset: u64,
    len: usize,
    block_size: usize,
    planned: Result<ReadPlan, CacheError>,
    data: Result<Vec<u8>, CacheError>,
    dev: Seq<u8>,
)
    requires
        call_ensures(build_read_plan, (blocks, offset, len, block_size), planned),
        call_ensures(assemble_read, (&blocks, offset, len, block_size), data),
        block_size > 0,
        0 < len,
        offset + len <= dev.len(),
        blocks@.len() == (offset + len - 1) / block_size as int - offset as int / block_size as int + 1,
    ensures
        planned is Ok <==> forall|i: int| 0 <= i < blocks@.len() ==> (#[trigger] blocks@[i]) is Some,
        data is Ok <==> forall|i: int| 0 <= i < blocks@.len() ==> (#[trigger] blocks@[i]) is Some,
        planned is Ok && hold_device(
            blocks@,
            dev,
            offset as int / block_size as int,
            block_size as int,
        ) ==> plan_bytes(planned->Ok_0.entries@) == dev.subrange(offset as int, offset + len),
        data is Ok && hold_device(
            blocks@,
            dev,
            offset as int / block_size as int,
            block_size as int,
        ) && (forall|i: int|
            0 <= i < blocks@.len() ==> (#[trigger] blocks@[i])->Some_0@.len() <= block_size)
            ==> data->Ok_0@ == dev.subrange(offset as int, offset + len),
{
    let held = hold_device(blocks@, dev, offset as int / block_size as int, block_size as int);
    if planned is Ok {
        assert forall|i: int| 0 <= i < blocks@.len() implies (#[trigger] blocks@[i]) is Some by {
            assert(blocks@[i] matches Some(block) && plan_entry_ok(
                planned->Ok_0.entries@[i],
                block@,
                offset as int,
                len as int,
                block_size as int,
                i,
            ));
        }
    }
    if planned is Ok && held {
        law_plan_is_device_range(
            planned->Ok_0,
            blocks@,
            dev,
            offset as int,
            len as int,
            block_size as int,
        );
    }
    if data is Ok && held && (forall|i: int|
        0 <= i < blocks@.len() ==> (#[trigger] blocks@[i])->Some_0@.len() <= block_size) {
        assert forall|i: int| 0 <= i < blocks@.len() implies (#[trigger] blocks@[i] matches Some(
            block,
        ) && block@.len() <= block_size) by {}
        law_assembled_bytes(blocks@, dev, offset as int, len as int, block_size as int);
    }
}

/// How a read is served. It is refused exactly if it does not lie on the device. One read of
/// the active file, of the bytes asked for, serves it exactly if no rotation is active and each
/// block that overlaps with it is present and not claimed by a flush; otherwise just these
/// blocks are resolved one by one.
pub proof fn law_reads_are_started(
    cache: WriteCache<Active>,
    offset: u64,
    len: usize,
    result: Result<ReadStart, CacheError>,
    b: int,
)
    requires
        cache.wf(),
        offset + len <= u64::MAX,
        call_ensures(WriteCache::<Active>::read, (&cache, offset, len), result),
    ensures
        result is Err <==> offset + len > cache.inner.config.device_size,
        result matches Err(e) ==> e == CacheError::OffsetOutOfBounds(
            (offset + len) as u64,
            cache.inner.config.device_size,
        ),
        result is Ok ==> (result->Ok_0 is Empty <==> len == 0),
        result is Ok ==> {
            let bs = cache.inner.config.block_size;
            let states = cache@.blocks.states;
            let overlaps = b * bs < offset + len && offset < b * bs + bs;
            &&& result->Ok_0 matches ReadStart::Pread(copy) ==> copy.offset == offset && copy.len
                == len && !cache.inner.flushing_active && (overlaps ==> 0 <= b < states.len()
                && states[b] != 0 && states[b] != 3)
            &&& result->Ok_0 matches ReadStart::Blocks { first, last } ==> (first <= b <= last
                <==> overlaps)
        },
        len > 0 && offset + len <= cache.inner.config.device_size && !cache.inner.flushing_active && (
        forall|c: int|
            0 <= c < cache@.blocks.states.len() && c * cache@.bs() < offset + len && offset < c
                * cache@.bs() + cache@.bs() ==> #[trigger] cache@.blocks.states[c] != 0 && cache@.blocks.states[c] != 3)
            ==> result->Ok_0 is Pread,
{
    let s = cache@;
    if len > 0 && offset + len <= s.ds() {
        law_range_touches_blocks(offset as int, len as int, s.bs(), b);
        lemma_range_blocks(offset as int, len as int, s.bs(), s.ds());
        let first = first_block(offset as int, s.bs());
        let last = last_block(offset as int, len as int, s.bs());
        assert(last <= offset + len - 1) by (nonlinear_arith)
            requires
                last == (offset + len - 1) / s.bs(),
                s.bs() >= 1,
                offset + len >= 1,
        ;
        if all_in_active(s, first, last) && first <= b <= last {
            assert(s.blocks.has(b));
        }
        if !s.flushing_active && (forall|c: int|
            0 <= c < s.blocks.states.len() && c * s.bs() < offset + len && offset < c * s.bs()
                + s.bs() ==> #[trigger] s.blocks.states[c] != 0 && s.blocks.states[c] != 3) {
            assert forall|c: int| first <= c <= last implies #[trigger] s.blocks.states[c] != 0
                && s.blocks.states[c] != 3 by {
                law_range_touches_blocks(offset as int, len as int, s.bs(), c);
            }
            assert forall|c: int| first <= c <= last implies #[trigger] s.blocks.has(c) && s.state(c)
                != SparseBlockState::NOT_PRESENT && s.state(c) != SparseBlockState::SYNCING by {
                assert(s.blocks.states[c] != 0);
            }
            assert(all_in_active(s, first, last));
            assert(result == read_start(s, offset, len));
        }
    }
}

/// The local copy of a block is told by its state, as it is for the cache's contents.
pub proof fn law_local_copy_is_told(cache: WriteCache<Active>, block_num: u64, at: LocalRead)
    requires
        cache.wf(),
        block_num * cache.inner.config.block_size <= u64::MAX,
        call_ensures(WriteCache::<Active>::sync_read_local_block, (&cache, block_num), at),
    ensures
        ({
            let s = cache@;
            let bs = cache.inner.config.block_size;
            let start = block_num * bs;
            let state = s.blocks.states[block_num as int];
            &&& at is Beyond <==> start >= s.config.device_size
            &&& !(at is Beyond) ==> {
                &&& at is Evicted <==> state == 0
                &&& at is Flushing <==> state == 3 && s.flushing_open
                &&& at matches LocalRead::Flushing(copy) ==> copy.offset == start && copy.len > 0 && (
                copy.offset + copy.len == s.config.device_size || copy.len == bs) && copy.offset
                    + copy.len <= s.config.device_size && copy.len <= bs
                &&& at matches LocalRead::Active(copy) ==> copy.offset == start && copy.len > 0 && (
                copy.offset + copy.len == s.config.device_size || copy.len == bs) && copy.offset
                    + copy.len <= s.config.device_size && copy.len <= bs
            }
        }),
{
    law_local_reads_are_placed(cache@, block_num as int);
}

/// A read of the local file alone reads the bytes asked for, where they are. It is refused
/// exactly if they do not lie on the device.
pub proof fn law_plain_reads(
    cache: WriteCache<Active>,
    offset: u64,
    len: usize,
    result: Result<Option<BlockCopy>, CacheError>,
)
    requires
        call_ensures(WriteCache::<Active>::read_local, (&cache, offset, len), result),
    ensures
        result is Err <==> offset + len > cache.inner.config.device_size,
        result is Ok ==> (result->Ok_0 is None <==> len == 0),
        result matches Ok(Some(copy)) ==> copy.offset == offset && copy.len == len,
{
}

/// A range can be read at once exactly if no rotation is active and each block that overlaps
/// with it is a block of the device, present, and not claimed by a flush.
pub proof fn law_reading_at_once(cache: WriteCache<Active>, offset: u64, len: usize, yes: bool)
    requires
        cache.wf(),
        len > 0,
        offset + len <= u64::MAX,
        call_ensures(WriteCache::<Active>::try_pread_local, (&cache, offset, len), yes),
    ensures
        yes ==> !cache.inner.flushing_active,
        yes ==> forall|b: int|
            #![trigger b * cache@.bs()]
            b * cache@.bs() < offset + len && offset < b * cache@.bs() + cache@.bs() ==> 0 <= b
                < cache@.blocks.states.len() && cache@.blocks.states[b] != 0
                && cache@.blocks.states[b] != 3,
        !yes && !cache.inner.flushing_active ==> exists|b: int|
            #![trigger b * cache@.bs()]
            b * cache@.bs() < offset + len && offset < b * cache@.bs() + cache@.bs() && !(0 <= b
                < cache@.blocks.states.len() && cache@.blocks.states[b] != 0
                && cache@.blocks.states[b] != 3),
{
    let s = cache@;
    let first = first_block(offset as int, s.bs());
    let last = last_block(offset as int, len as int, s.bs());
    if yes {
        assert forall|b: int|
            #![trigger b * cache@.bs()]
            b * cache@.bs() < offset + len && offset < b * cache@.bs() + cache@.bs() implies 0 <= b
            < cache@.blocks.states.len() && cache@.blocks.states[b] != 0 && cache@.blocks.states[b]
            != 3 by {
            law_range_touches_blocks(offset as int, len as int, s.bs(), b);
            assert(s.blocks.has(b));
        }
    } else if !cache.inner.flushing_active {
        let b = choose|b: int|
            first <= b <= last && !(#[trigger] s.blocks.has(b) && s.state(b)
                != SparseBlockState::NOT_PRESENT && s.state(b) != SparseBlockState::SYNCING);
        law_range_touches_blocks(offset as int, len as int, s.bs(), b);
        assert(b * cache@.bs() < offset + len);
    }
}

/// The local copy of a block, and a local read, are told alike to all callers.
pub proof fn law_local_reads_agree(
    cache: WriteCache<Active>,
    block_num: u64,
    a: LocalRead,
    b: LocalRead,
    offset: u64,
    len: usize,
    plain: Result<Option<BlockCopy>, CacheError>,
    only: Result<Option<BlockCopy>, CacheError>,
)
    requires
        call_ensures(WriteCache::<Active>::sync_read_local_block, (&cache, block_num), a),
        call_ensures(WriteCache::<Active>::read_local_block, (&cache, block_num), b),
        call_ensures(WriteCache::<Active>::read_local, (&cache, offset, len), plain),
        call_ensures(WriteCache::<Active>::read_local_only, (&cache, offset, len), only),
    ensures
        a == b,
        plain == only,
{
}

} // verus!
