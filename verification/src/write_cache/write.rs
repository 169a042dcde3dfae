//! The write path: from a guest's bytes to dirty blocks and WAL entries.

use vstd::arithmetic::div_mod::{
    lemma_div_pos_is_pos, lemma_fundamental_div_mod, lemma_fundamental_div_mod_converse,
};
use vstd::prelude::*;
use crate::write_cache::blocks::{law_counters_follow_states, law_range_is_present, Blocks};
use crate::write_cache::config::ceil_div;
use crate::write_cache::error::CacheError;
use crate::write_cache::geometry::{
    first_block, last_block, law_range_touches_blocks, lemma_range_blocks,
};
use crate::write_cache::inner::{CacheInner, CacheState};
use crate::checksum::crc32_iscsi_of;
use crate::write_cache::page_crcs::{captured, captured_zeros, zero_page};
use crate::write_cache::promote::{Promotion, PromotePhase};
use crate::write_cache::state_map::SparseBlockState;
use crate::write_cache::{Active, WriteCache};

verus! {

/// A short list of block indices, kept inline up to sixteen of them.
#[verifier::external_body]
pub struct BlockList {
    list: smallvec::SmallVec<[usize; 16]>,
}

/// The block indices that a list holds, in order.
pub uninterp spec fn listed_blocks(list: BlockList) -> Seq<usize>;

/// `SmallVec::new`: an empty list.
#[verifier::external_body]
fn block_list_new() -> (list: BlockList)
    ensures
        listed_blocks(list) == Seq::<usize>::empty(),
{
    BlockList { list: smallvec::SmallVec::new() }
}

/// `SmallVec::push`: the index is appended at the end.
#[verifier::external_body]
fn block_list_push(list: &mut BlockList, idx: usize)
    ensures
        listed_blocks(*final(list)) == listed_blocks(*old(list)).push(idx),
{
    list.list.push(idx);
}

/// `SmallVec::as_slice`: the indices in order.
#[verifier::external_body]
fn block_list_slice(list: &BlockList) -> (slice: &[usize])
    ensures
        slice@ == listed_blocks(*list),
{
    list.list.as_slice()
}

/// An entry of the write-ahead log: a block was written.
#[derive(Clone, Copy, Debug, PartialEq, Eq, Structural)]
pub struct WalEntry {
    pub block_index: u64,
    pub sequence: u64,
}

/// The sequence number `k` steps after `start`.
pub open spec fn seq_after(start: u64, k: nat) -> u64 {
    ((start + k) % 0x1_0000_0000_0000_0000) as u64
}

/// The blocks from `from` up to but not including `to` that are blocks of the
/// device and not dirty, in ascending order.
pub open spec fn not_dirty(states: Seq<u8>, from: int, to: int) -> Seq<usize>
    decreases to - from,
{
    if to <= from {
        Seq::empty()
    } else {
        let before = not_dirty(states, from, to - 1);
        if to - 1 < states.len() && states[to - 1] != SparseBlockState::DIRTY {
            before.push((to - 1) as usize)
        } else {
            before
        }
    }
}

/// One log entry per block, numbered from the one after `sequence` on.
pub open spec fn wal_entries(blocks: Seq<usize>, sequence: u64) -> Seq<WalEntry> {
    Seq::new(
        blocks.len(),
        |i: int|
            WalEntry {
                block_index: blocks[i] as u64,
                sequence: seq_after(sequence, (i + 1) as nat),
            },
    )
}

impl CacheInner {
    /// Marks the blocks from `start_block` to `end_block` dirty, with one WAL
    /// entry for each block that was not dirty before.
    ///
    /// The caller appends the entries after this: a checkpoint that runs in
    /// between persists the blocks as dirty, and the entries are the backstop
    /// for a crash before the next one.
    pub fn wal_append_and_mark_dirty(&mut self, start_block: u64, end_block: u64) -> (entries: Vec<
        WalEntry,
    >)
        requires
            old(self).wf(),
            end_block < u64::MAX,
        ensures
            final(self).wf(),
            entries@ == wal_entries(
                not_dirty(old(self)@.blocks.states, start_block as int, end_block + 1),
                old(self)@.sequence,
            ),
            final(self)@ == marked_dirty(old(self)@, start_block as int, end_block + 1),
    {
        let num_blocks: usize = self.blocks.num_blocks();
        let mut entries: Vec<WalEntry> = Vec::new();
        let mut to_dirty = block_list_new();
        let ghost s0 = self@;
        let mut block: u64 = start_block;
        while block <= end_block
            invariant
                self.wf(),
                num_blocks == s0.blocks.states.len(),
                start_block <= block,
                block <= end_block + 1 || block == start_block,
                end_block < u64::MAX,
                listed_blocks(to_dirty) == not_dirty(
                    s0.blocks.states,
                    start_block as int,
                    block as int,
                ),
                entries@ == wal_entries(listed_blocks(to_dirty), s0.sequence),
                self.sequence == seq_after(s0.sequence, listed_blocks(to_dirty).len()),
                self@ == (CacheState { sequence: self.sequence, ..s0 }),
            decreases end_block + 1 - block,
        {
            if block < num_blocks as u64 {
                let idx: usize = block as usize;
                if self.blocks.get(idx) != SparseBlockState::DIRTY {
                    self.sequence = self.sequence.wrapping_add(1);
                    entries.push(WalEntry { block_index: block, sequence: self.sequence });
                    block_list_push(&mut to_dirty, idx);
                    assert(entries@ =~= wal_entries(listed_blocks(to_dirty), s0.sequence));
                }
            }
            block = block + 1;
        }
        let ghost s1 = self@;
        let ghost list = listed_blocks(to_dirty);
        let indices: &[usize] = block_list_slice(&to_dirty);
        let n: usize = indices.len();
        proof {
            lemma_not_dirty(s0.blocks.states, start_block as int, block as int);
        }
        let mut i: usize = 0;
        while i < n
            invariant
                self.wf(),
                n == indices@.len(),
                indices@ == list,
                i <= n,
                s1 == (CacheState { sequence: s1.sequence, ..s0 }),
                forall|j: int| 0 <= j < list.len() ==> #[trigger] list[j] < s0.blocks.states.len(),
                self@ == (CacheState {
                    blocks: s0.blocks.made_dirty_all(list.take(i as int)),
                    ..s1
                }),
                self@.blocks.states.len() == s0.blocks.states.len(),
            decreases n - i,
        {
            let _ = self.blocks.transition_to_dirty(indices[i]);
            proof {
                assert(list.take(i + 1).drop_last() =~= list.take(i as int));
            }
            i = i + 1;
        }
        assert(list.take(n as int) =~= list);
        proof {
            if end_block < start_block {
                assert(not_dirty(s0.blocks.states, start_block as int, end_block + 1) =~= list);
            }
        }
        entries
    }
}

/// Every listed block is one of the range and of the device.
proof fn lemma_not_dirty(states: Seq<u8>, from: int, to: int)
    requires
        0 <= from,
        states.len() <= usize::MAX,
    ensures
        forall|j: int|
            0 <= j < not_dirty(states, from, to).len() ==> from <= #[trigger] not_dirty(
                states,
                from,
                to,
            )[j] < states.len() && not_dirty(states, from, to)[j] < to
                && states[not_dirty(states, from, to)[j] as int] != SparseBlockState::DIRTY,
    decreases to - from,
{
    if to > from {
        lemma_not_dirty(states, from, to - 1);
        let before = not_dirty(states, from, to - 1);
        let all = not_dirty(states, from, to);
        assert forall|j: int| 0 <= j < all.len() implies from <= #[trigger] all[j] < states.len()
            && all[j] < to && states[all[j] as int] != SparseBlockState::DIRTY by {
            if j < before.len() {
                assert(all[j] == before[j]);
            }
        }
    }
}

/// The state after the blocks of a range were marked dirty.
pub open spec fn marked_dirty(s: CacheState, from: int, to: int) -> CacheState {
    let list = not_dirty(s.blocks.states, from, to);
    CacheState {
        blocks: s.blocks.made_dirty_all(list),
        sequence: seq_after(s.sequence, list.len()),
        ..s
    }
}

/// The error for a range that does not lie on the device, if it does not.
pub open spec fn range_error(offset: u64, len: u64, device_size: u64) -> Option<CacheError> {
    if offset + len > u64::MAX {
        Some(CacheError::OffsetOutOfBounds(u64::MAX, device_size))
    } else if offset + len > device_size {
        Some(CacheError::OffsetOutOfBounds((offset + len) as u64, device_size))
    } else {
        None
    }
}

/// Why a cache takes no more writes: once a strictly newer generation has taken the
/// volume, none of them could durably commit.
pub open spec fn fence_error(s: CacheState) -> Option<CacheError> {
    if s.fenced {
        Some(CacheError::Fenced { held: s.current_generation, superseded_by: 0 })
    } else {
        None
    }
}

/// The promotion of the blocks that a range of at least one byte touches.
pub open spec fn range_promotion(
    s: CacheState,
    offset: u64,
    len: u64,
    require_promotion: bool,
) -> Promotion {
    Promotion {
        block: first_block(offset as int, s.bs()) as u64,
        end_block: last_block(offset as int, len as int, s.bs()) as u64,
        require_promotion,
        flushing: s.flushing_open,
        phase: PromotePhase::Checking,
    }
}

/// What has to be made durable after WAL entries were appended.
#[derive(Clone, Copy, Debug, PartialEq, Eq, Structural)]
pub enum WalDurability {
    /// Nothing was appended.
    Nothing,
    /// Hand the entries to the operating system.
    Flush,
    /// Sync the data file, then the WAL.
    SyncDataThenWal,
}

/// What becomes of a block that was filled from object storage.
#[derive(Clone, Copy, Debug, PartialEq, Eq, Structural)]
pub enum Materialization {
    /// There is nothing to write.
    Nothing,
    /// The claim was lost or the block was written meanwhile: the fetched data
    /// is stale and must not be written.
    Stolen,
    /// The data is to be written and committed.
    Land,
}

/// Bytes that are zeroed with one write where the file system cannot zero a
/// range by itself.
pub const ZERO_CHUNK_SIZE: usize = 131_072;

/// The writes that zero `len` bytes at `offset`.
pub fn zero_range_chunks(offset: u64, len: u64) -> (chunks: Vec<(u64, usize)>)
    requires
        offset + len <= u64::MAX,
        ceil_div(len as int, ZERO_CHUNK_SIZE as int) <= usize::MAX,
    ensures
        chunks@.len() == ceil_div(len as int, ZERO_CHUNK_SIZE as int),
        forall|i: int|
            0 <= i < chunks@.len() ==> #[trigger] chunks@[i] == (
                (offset + i * ZERO_CHUNK_SIZE) as u64,
                if len - i * ZERO_CHUNK_SIZE < ZERO_CHUNK_SIZE {
                    (len - i * ZERO_CHUNK_SIZE) as usize
                } else {
                    ZERO_CHUNK_SIZE
                },
            ),
{
    let mut chunks: Vec<(u64, usize)> = Vec::new();
    let mut remaining: u64 = len;
    let mut current: u64 = offset;
    while remaining > 0
        invariant
            offset + len <= u64::MAX,
            remaining <= len,
            current == offset + (len - remaining),
            remaining > 0 ==> len - remaining == chunks@.len() * ZERO_CHUNK_SIZE,
            chunks@.len() == ceil_div(len - remaining, ZERO_CHUNK_SIZE as int),
            forall|i: int|
                0 <= i < chunks@.len() ==> #[trigger] chunks@[i] == (
                    (offset + i * ZERO_CHUNK_SIZE) as u64,
                    if len - i * ZERO_CHUNK_SIZE < ZERO_CHUNK_SIZE {
                        (len - i * ZERO_CHUNK_SIZE) as usize
                    } else {
                        ZERO_CHUNK_SIZE
                    },
                ),
        decreases remaining,
    {
        let chunk: usize = if remaining < ZERO_CHUNK_SIZE as u64 {
            remaining as usize
        } else {
            ZERO_CHUNK_SIZE
        };
        chunks.push((current, chunk));
        remaining = remaining - chunk as u64;
        current = current + chunk as u64;
    }
    chunks
}

impl CacheInner {
    fn check_fence(&self) -> (result: Result<(), CacheError>)
        ensures
            match fence_error(self@) {
                Some(e) => result == Err::<(), CacheError>(e),
                None => result == Ok::<(), CacheError>(()),
            },
    {
        if self.fenced {
            Err(CacheError::Fenced { held: self.current_generation, superseded_by: 0 })
        } else {
            Ok(())
        }
    }

    fn check_range(&self, offset: u64, len: u64) -> (result: Result<(), CacheError>)
        ensures
            match range_error(offset, len, self@.config.device_size) {
                Some(e) => result == Err::<(), CacheError>(e),
                None => result == Ok::<(), CacheError>(()),
            },
    {
        match offset.checked_add(len) {
            None => Err(CacheError::offset_out_of_bounds(u64::MAX, self.config.device_size)),
            Some(end) => if end > self.config.device_size {
                Err(CacheError::offset_out_of_bounds(end, self.config.device_size))
            } else {
                Ok(())
            },
        }
    }

    fn promotion_of(&self, offset: u64, len: u64, require_promotion: bool) -> (p: Promotion)
        requires
            self.wf(),
            len > 0,
            offset + len <= u64::MAX,
        ensures
            p == range_promotion(self@, offset, len, require_promotion),
            p.wf(self@),
            p.block <= p.end_block,
    {
        let block_size: u64 = self.config.block_size as u64;
        proof {
            lemma_range_blocks(offset as int, len as int, block_size as int, u64::MAX as int);
            assert(last_block(offset as int, len as int, block_size as int) <= offset + len - 1)
                by (nonlinear_arith)
                requires
                    last_block(offset as int, len as int, block_size as int) == (offset + len - 1)
                        / block_size as int,
                    block_size >= 1,
                    offset + len >= 1,
            ;
        }
        Promotion::new(
            self,
            offset / block_size,
            (offset + len - 1) / block_size,
            require_promotion,
        )
    }
}

/// Whether writing a block makes the data file grow: it is not present, or not on
/// the device.
pub open spec fn is_new_block(s: CacheState, block: int) -> bool {
    !(s.blocks.has(block) && s.state(block) != SparseBlockState::NOT_PRESENT)
}

impl WriteCache<Active> {
    /// Starts a write of `len` bytes at `offset`: the promotion that has to
    /// run first, or nothing for an empty write.
    pub fn write(&self, offset: u64, len: u64) -> (result: Result<Option<Promotion>, CacheError>)
        requires
            self.wf(),
        ensures
            write_outcome(self@, offset, len, false, result),
    {
        self.write_inner(offset, len, false)
    }

    /// As `write`, for a caller that can fetch evicted blocks: the promotion
    /// fails if the data of a block is no longer in the local files.
    pub fn write_with_eviction_check(&self, offset: u64, len: u64) -> (result: Result<
        Option<Promotion>,
        CacheError,
    >)
        requires
            self.wf(),
        ensures
            write_outcome(self@, offset, len, true, result),
    {
        self.write_inner(offset, len, true)
    }

    fn write_inner(&self, offset: u64, len: u64, require_promotion: bool) -> (result: Result<
        Option<Promotion>,
        CacheError,
    >)
        requires
            self.wf(),
        ensures
            write_outcome(self@, offset, len, require_promotion, result),
    {
        if let Err(e) = self.inner.check_fence() {
            return Err(e);
        }
        match self.inner.check_range(offset, len) {
            Err(e) => Err(e),
            Ok(()) => if len == 0 {
                Ok(None)
            } else {
                Ok(Some(self.inner.promotion_of(offset, len, require_promotion)))
            },
        }
    }

    /// Marks the blocks of a range present, after promotion and before the data
    /// is written: a prefetch of the old data then leaves them alone.
    pub fn claim_range(&mut self, offset: u64, len: u64)
        requires
            old(self).wf(),
            len > 0,
            offset + len <= u64::MAX,
        ensures
            final(self).wf(),
            final(self)@ == range_claimed(old(self)@, offset as int, len as int),
    {
        let p = self.inner.promotion_of(offset, len, false);
        let ghost s0 = self@;
        let mut block: u64 = p.block;
        while block <= p.end_block
            invariant
                self.wf(),
                p.block <= block <= p.end_block + 1,
                p.end_block < u64::MAX,
                self@ == (CacheState {
                    blocks: s0.blocks.marked_present_range(p.block as int, block as int),
                    ..s0
                }),
            decreases p.end_block + 1 - block,
        {
            if block < self.inner.blocks.num_blocks() as u64 {
                self.inner.blocks.set_present(block as usize);
            }
            block = block + 1;
        }
    }

    /// Commits `data`, written at `offset`: captures its page checksums and
    /// marks its blocks dirty. Returns the WAL entries to append.
    pub fn commit_write(&mut self, offset: u64, data: &[u8]) -> (entries: Vec<WalEntry>)
        requires
            old(self).wf(),
            data@.len() > 0,
            offset + data@.len() <= old(self)@.ds(),
        ensures
            final(self).wf(),
            entries@ == range_entries(old(self)@, offset as int, data@.len() as int),
            final(self)@ == (CacheState {
                crcs: captured(
                    old(self)@.crcs,
                    (old(self)@.bs() / 4096) as nat,
                    old(self)@.bs(),
                    offset as int,
                    data@,
                ),
                ..range_dirtied(old(self)@, offset as int, data@.len() as int)
            }),
    {
        let p = self.inner.promotion_of(offset, data.len() as u64, false);
        proof {
            lemma_range_blocks(offset as int, data@.len() as int, self@.bs(), self@.ds());
        }
        self.inner.page_crcs.capture_page_crcs(self.inner.config.block_size, offset, data);
        self.inner.wal_append_and_mark_dirty(p.block, p.end_block)
    }

    /// Starts zeroing `len` bytes at `offset`: the promotion that has to run
    /// first, or nothing for an empty range.
    pub fn zero_range(&self, offset: u64, len: u64) -> (result: Result<
        Option<Promotion>,
        CacheError,
    >)
        requires
            self.wf(),
        ensures
            match fence_error(self@) {
                Some(e) => result == Err::<Option<Promotion>, CacheError>(e),
                None => if len == 0 {
                    result == Ok::<Option<Promotion>, CacheError>(None)
                } else {
                    match range_error(offset, len, self@.config.device_size) {
                        Some(e) => result == Err::<Option<Promotion>, CacheError>(e),
                        None => result == Ok::<Option<Promotion>, CacheError>(
                            Some(range_promotion(self@, offset, len, false)),
                        ),
                    }
                },
            },
    {
        if let Err(e) = self.inner.check_fence() {
            return Err(e);
        }
        if len == 0 {
            return Ok(None);
        }
        match self.inner.check_range(offset, len) {
            Err(e) => Err(e),
            Ok(()) => Ok(Some(self.inner.promotion_of(offset, len, false))),
        }
    }

    /// Commits a zeroed range. Returns the WAL entries to append.
    pub fn commit_zero_range(&mut self, offset: u64, len: u64) -> (entries: Vec<WalEntry>)
        requires
            old(self).wf(),
            len > 0,
            offset + len <= old(self)@.ds(),
        ensures
            final(self).wf(),
            entries@ == range_entries(old(self)@, offset as int, len as int),
            final(self)@ == (CacheState {
                crcs: captured_zeros(
                    old(self)@.crcs,
                    (old(self)@.bs() / 4096) as nat,
                    old(self)@.bs(),
                    offset as int,
                    len as int,
                ),
                ..range_dirtied(old(self)@, offset as int, len as int)
            }),
    {
        let p = self.inner.promotion_of(offset, len, false);
        proof {
            lemma_range_blocks(offset as int, len as int, self@.bs(), self@.ds());
        }
        self.inner.page_crcs.capture_zero_page_crcs(self.inner.config.block_size, offset, len);
        self.inner.wal_append_and_mark_dirty(p.block, p.end_block)
    }

    /// Check if any block in the given range is not yet present on SSD.
    ///
    /// When the SSD is near-full, writes to present blocks are allowed, since
    /// they do not grow the data file.
    pub fn has_new_blocks(&self, offset: u64, len: u64) -> (any: bool)
        requires
            self.wf(),
            0 < offset + len <= u64::MAX,
        ensures
            any == exists|block: int|
                first_block(offset as int, self@.bs()) <= block <= last_block(
                    offset as int,
                    len as int,
                    self@.bs(),
                ) && #[trigger] is_new_block(self@, block),
    {
        let block_size: u64 = self.inner.config.block_size as u64;
        let num_blocks: usize = self.inner.blocks.num_blocks();
        let first: u64 = offset / block_size;
        let end: u64 = offset + len - 1;
        assert(end / block_size <= end) by (nonlinear_arith)
            requires
                block_size >= 1,
        ;
        let last: u64 = end / block_size;
        let mut block: u64 = first;
        while block <= last
            invariant
                self.wf(),
                num_blocks == self@.num_blocks(),
                first == first_block(offset as int, self@.bs()),
                last == last_block(offset as int, len as int, self@.bs()),
                first <= block,
                last < u64::MAX,
                forall|b: int| first <= b < block ==> !#[trigger] is_new_block(self@, b),
            decreases last + 1 - block,
        {
            if block >= num_blocks as u64 {
                assert(is_new_block(self@, block as int));
                return true;
            }
            if !self.inner.blocks.is_present(block as usize) {
                assert(is_new_block(self@, block as int));
                return true;
            }
            block = block + 1;
        }
        false
    }

    /// Phase 1 of a two-phase write: prepare blocks before data lands on disk.
    /// If the data write then fails, the blocks are present but not dirty.
    pub fn pre_write(&mut self, offset: u64, len: u64) -> (result: Result<(), CacheError>)
        requires
            old(self).wf(),
        ensures
            final(self).wf(),
            match fence_error(old(self)@) {
                Some(e) => result == Err::<(), CacheError>(e) && final(self)@ == old(self)@,
                None => match range_error(offset, len, old(self)@.config.device_size) {
                    Some(e) => result == Err::<(), CacheError>(e) && final(self)@ == old(self)@,
                    None => result == Ok::<(), CacheError>(()) && final(self)@ == if len == 0 {
                        old(self)@
                    } else {
                        range_claimed(old(self)@, offset as int, len as int)
                    },
                },
            },
    {
        if let Err(e) = self.inner.check_fence() {
            return Err(e);
        }
        match self.inner.check_range(offset, len) {
            Err(e) => Err(e),
            Ok(()) => {
                if len > 0 {
                    self.claim_range(offset, len);
                }
                Ok(())
            },
        }
    }

    /// Starts phase 2 of a two-phase write: the promotion that has to run
    /// before the data is written and committed. It fails rather than leave a
    /// block half filled.
    pub fn pwrite_and_commit(&self, offset: u64, len: u64) -> (result: Result<
        Option<Promotion>,
        CacheError,
    >)
        requires
            self.wf(),
            offset + len <= u64::MAX,
        ensures
            match fence_error(self@) {
                Some(e) => result == Err::<Option<Promotion>, CacheError>(e),
                None => result == Ok::<Option<Promotion>, CacheError>(
                    if len == 0 {
                        None
                    } else {
                        Some(range_promotion(self@, offset, len, true))
                    },
                ),
            },
    {
        if let Err(e) = self.inner.check_fence() {
            return Err(e);
        }
        if len == 0 {
            return Ok(None);
        }
        Ok(Some(self.inner.promotion_of(offset, len, true)))
    }

    /// Starts a zero-copy write: the promotion that has to run before the
    /// kernel writes the data. Only a write that covers every block in full can
    /// do without the old data of an evicted block.
    pub fn zc_promote_for_write_with(&self, offset: u64, length: u64) -> (result: Result<
        Option<Promotion>,
        CacheError,
    >)
        requires
            self.wf(),
            offset + length <= u64::MAX,
        ensures
            match fence_error(self@) {
                Some(e) => result == Err::<Option<Promotion>, CacheError>(e),
                None => result == Ok::<Option<Promotion>, CacheError>(
                    if length == 0 {
                        None
                    } else {
                        Some(
                            range_promotion(
                                self@,
                                offset,
                                length,
                                !(offset as int % self@.bs() == 0 && length as int % self@.bs()
                                    == 0),
                            ),
                        )
                    },
                ),
            },
    {
        if let Err(e) = self.inner.check_fence() {
            return Err(e);
        }
        if length == 0 {
            return Ok(None);
        }
        let block_size: u64 = self.inner.config.block_size as u64;
        let fully_covers: bool = offset % block_size == 0 && length % block_size == 0;
        Ok(Some(self.inner.promotion_of(offset, length, !fully_covers)))
    }

    /// Commits a zero-copy write. The data never entered this process, so there
    /// are no checksums to capture.
    pub fn commit_after_zc_write_with(&mut self, offset: u64, length: u64) -> (entries: Vec<
        WalEntry,
    >)
        requires
            old(self).wf(),
            offset + length <= u64::MAX,
        ensures
            final(self).wf(),
            if length == 0 {
                entries@ == Seq::<WalEntry>::empty() && final(self)@ == old(self)@
            } else {
                entries@ == range_entries(old(self)@, offset as int, length as int)
                    && final(self)@ == range_dirtied(old(self)@, offset as int, length as int)
            },
    {
        if length == 0 {
            return Vec::new();
        }
        let p = self.inner.promotion_of(offset, length, false);
        self.inner.wal_append_and_mark_dirty(p.block, p.end_block)
    }

    /// Decides whether `len` bytes that were fetched for block `block_idx` may
    /// be written at `offset`. The block must still be the claim it was fetched
    /// for: `claim_valid` says so of the claim, and the block must be `CLEAN`. The
    /// data may hold a guest write, so a fenced cache takes none.
    pub fn write_materialized(
        &self,
        offset: u64,
        len: u64,
        block_idx: usize,
        claim_valid: bool,
    ) -> (result: Result<Materialization, CacheError>)
        requires
            self.wf(),
            self@.blocks.has(block_idx as int),
        ensures
            match fence_error(self@) {
                Some(e) => result == Err::<Materialization, CacheError>(e),
                None => if len == 0 {
                    result == Ok::<Materialization, CacheError>(Materialization::Nothing)
                } else {
                    match range_error(offset, len, self@.config.device_size) {
                        Some(e) => result == Err::<Materialization, CacheError>(e),
                        None => result == Ok::<Materialization, CacheError>(
                            if claim_valid && self@.state(block_idx as int)
                                == SparseBlockState::CLEAN {
                                Materialization::Land
                            } else {
                                Materialization::Stolen
                            },
                        ),
                    }
                },
            },
    {
        if let Err(e) = self.inner.check_fence() {
            return Err(e);
        }
        if len == 0 {
            return Ok(Materialization::Nothing);
        }
        match self.inner.check_range(offset, len) {
            Err(e) => Err(e),
            Ok(()) => if claim_valid && self.inner.blocks.get(block_idx) == SparseBlockState::CLEAN {
                Ok(Materialization::Land)
            } else {
                Ok(Materialization::Stolen)
            },
        }
    }

    /// What has to be made durable after `appended` WAL entries.
    pub fn wal_durability(&self, appended: usize) -> (d: WalDurability)
        ensures
            d == (if appended == 0 {
                WalDurability::Nothing
            } else if self@.config.wal_sync {
                WalDurability::SyncDataThenWal
            } else {
                WalDurability::Flush
            }),
    {
        if appended == 0 {
            WalDurability::Nothing
        } else if self.inner.config.wal_sync {
            WalDurability::SyncDataThenWal
        } else {
            WalDurability::Flush
        }
    }
}

/// What starting a write comes to.
pub open spec fn write_outcome(
    s: CacheState,
    offset: u64,
    len: u64,
    require_promotion: bool,
    result: Result<Option<Promotion>, CacheError>,
) -> bool {
    match fence_error(s) {
        Some(e) => result == Err::<Option<Promotion>, CacheError>(e),
        None => match range_error(offset, len, s.config.device_size) {
            Some(e) => result == Err::<Option<Promotion>, CacheError>(e),
            None => result == Ok::<Option<Promotion>, CacheError>(
                if len == 0 {
                    None
                } else {
                    Some(range_promotion(s, offset, len, require_promotion))
                },
            ),
        },
    }
}

/// The state after the blocks of a range were marked present.
pub open spec fn range_claimed(s: CacheState, offset: int, len: int) -> CacheState {
    CacheState {
        blocks: s.blocks.marked_present_range(
            first_block(offset, s.bs()),
            last_block(offset, len, s.bs()) + 1,
        ),
        ..s
    }
}

/// The state after the blocks of a range were marked dirty.
pub open spec fn range_dirtied(s: CacheState, offset: int, len: int) -> CacheState {
    marked_dirty(s, first_block(offset, s.bs()), last_block(offset, len, s.bs()) + 1)
}

/// The WAL entries of a write.
pub open spec fn range_entries(s: CacheState, offset: int, len: int) -> Seq<WalEntry> {
    wal_entries(
        not_dirty(
            s.blocks.states,
            first_block(offset, s.bs()),
            last_block(offset, len, s.bs()) + 1,
        ),
        s.sequence,
    )
}

/// The list of blocks to mark holds exactly the blocks of the range that are on
/// the device and not dirty.
proof fn lemma_not_dirty_contains(states: Seq<u8>, from: int, to: int, block: usize)
    requires
        0 <= from,
        states.len() <= usize::MAX,
    ensures
        not_dirty(states, from, to).contains(block) <==> from <= block < to && block < states.len()
            && states[block as int] != SparseBlockState::DIRTY,
    decreases to - from,
{
    lemma_not_dirty(states, from, to);
    let all = not_dirty(states, from, to);
    if to > from {
        let before = not_dirty(states, from, to - 1);
        lemma_not_dirty_contains(states, from, to - 1, block);
        if before.contains(block) {
            let j = choose|j: int| 0 <= j < before.len() && before[j] == block;
            assert(all[j] == block);
        }
        if block == to - 1 && all.len() > before.len() {
            assert(all[all.len() - 1] == block);
        }
        if all.contains(block) {
            let j = choose|j: int| 0 <= j < all.len() && all[j] == block;
            if j < before.len() {
                assert(before[j] == block);
            }
        }
    }
}

/// Marking blocks dirty changes their states and no others, and keeps the
/// counters in step.
pub proof fn lemma_made_dirty_all(blocks: Blocks, list: Seq<usize>)
    requires
        forall|j: int| 0 <= j < list.len() ==> #[trigger] list[j] < blocks.states.len(),
        blocks.states.len() <= usize::MAX,
    ensures
        blocks.made_dirty_all(list).states.len() == blocks.states.len(),
        forall|i: int|
            0 <= i < blocks.states.len() ==> #[trigger] blocks.made_dirty_all(list).states[i]
                == if list.contains(i as usize) {
                SparseBlockState::DIRTY
            } else {
                blocks.states[i]
            },
        blocks.counted() ==> blocks.made_dirty_all(list).counted(),
    decreases list.len(),
{
    if list.len() > 0 {
        let before = list.drop_last();
        assert forall|j: int| 0 <= j < before.len() implies #[trigger] before[j]
            < blocks.states.len() by {
            assert(before[j] == list[j]);
        }
        lemma_made_dirty_all(blocks, before);
        let mid = blocks.made_dirty_all(before);
        let last = list.last() as int;
        assert(last < blocks.states.len()) by {
            assert(list[list.len() - 1] < blocks.states.len());
        }
        if blocks.counted() {
            law_counters_follow_states(mid, last);
        }
        assert forall|i: int| 0 <= i < blocks.states.len() implies #[trigger] blocks.made_dirty_all(
            list,
        ).states[i] == if list.contains(i as usize) {
            SparseBlockState::DIRTY
        } else {
            blocks.states[i]
        } by {
            if before.contains(i as usize) {
                let j = choose|j: int| 0 <= j < before.len() && before[j] == i as usize;
                assert(list[j] == i as usize);
            }
            if list.contains(i as usize) && i != last {
                let j = choose|j: int| 0 <= j < list.len() && list[j] == i as usize;
                assert(before[j] == i as usize);
            }
            if i == last {
                assert(list[list.len() - 1] == i as usize);
            }
            assert(mid.states[i] == if before.contains(i as usize) {
                SparseBlockState::DIRTY
            } else {
                blocks.states[i]
            });
        }
    }
}

/// A committed write leaves every block that it touches dirty and every other
/// block as it was, and the counters in step with the states.
pub proof fn law_commit_dirties_range(s: CacheState, offset: int, len: int)
    requires
        s.bs() > 0,
        0 <= offset,
        0 < len,
        offset + len <= s.ds(),
        s.num_blocks() == ceil_div(s.ds(), s.bs()),
        s.num_blocks() <= usize::MAX,
    ensures
        range_dirtied(s, offset, len).num_blocks() == s.num_blocks(),
        forall|block: int|
            0 <= block < s.num_blocks() ==> #[trigger] range_dirtied(s, offset, len).state(block)
                == if first_block(offset, s.bs()) <= block <= last_block(offset, len, s.bs()) {
                SparseBlockState::DIRTY
            } else {
                s.state(block)
            },
        s.blocks.counted() ==> range_dirtied(s, offset, len).blocks.counted(),
{
    lemma_range_blocks(offset, len, s.bs(), s.ds());
    let from = first_block(offset, s.bs());
    let to = last_block(offset, len, s.bs()) + 1;
    let states = s.blocks.states;
    let list = not_dirty(states, from, to);
    lemma_not_dirty(states, from, to);
    lemma_made_dirty_all(s.blocks, list);
    assert forall|block: int| 0 <= block < s.num_blocks() implies #[trigger] range_dirtied(
        s,
        offset,
        len,
    ).state(block) == if from <= block < to {
        SparseBlockState::DIRTY
    } else {
        s.state(block)
    } by {
        lemma_not_dirty_contains(states, from, to, block as usize);
        assert(s.blocks.made_dirty_all(list).states[block] == if list.contains(block as usize) {
            SparseBlockState::DIRTY
        } else {
            states[block]
        });
    }
}

/// The log of a write has an entry for each block that the write made dirty,
/// and only for those. Sequence numbers grow by one from entry to entry, from
/// the one after the last number handed out.
pub proof fn law_log_covers_new_dirty_blocks(s: CacheState, offset: int, len: int)
    requires
        s.bs() > 0,
        0 <= offset,
        0 < len,
        offset + len <= s.ds(),
        s.num_blocks() == ceil_div(s.ds(), s.bs()),
        s.num_blocks() <= usize::MAX,
        s.sequence + range_entries(s, offset, len).len() <= u64::MAX,
    ensures
        forall|block: int|
            #![trigger s.state(block)]
            0 <= block < s.num_blocks() && s.state(block) != SparseBlockState::DIRTY
                && range_dirtied(s, offset, len).state(block) == SparseBlockState::DIRTY
                ==> exists|i: int|
                0 <= i < range_entries(s, offset, len).len() && (#[trigger] range_entries(
                    s,
                    offset,
                    len,
                )[i]).block_index == block,
        forall|i: int|
            0 <= i < range_entries(s, offset, len).len() ==> {
                let entry = #[trigger] range_entries(s, offset, len)[i];
                &&& entry.sequence == s.sequence + i + 1
                &&& entry.block_index < s.num_blocks()
                &&& s.state(entry.block_index as int) != SparseBlockState::DIRTY
                &&& range_dirtied(s, offset, len).state(entry.block_index as int)
                    == SparseBlockState::DIRTY
            },
        range_dirtied(s, offset, len).sequence == s.sequence + range_entries(s, offset, len).len(),
{
    lemma_range_blocks(offset, len, s.bs(), s.ds());
    law_commit_dirties_range(s, offset, len);
    let from = first_block(offset, s.bs());
    let to = last_block(offset, len, s.bs()) + 1;
    let states = s.blocks.states;
    let list = not_dirty(states, from, to);
    let entries = range_entries(s, offset, len);
    lemma_not_dirty(states, from, to);
    assert forall|block: int|
        #![trigger s.state(block)]
        0 <= block < s.num_blocks() && s.state(block) != SparseBlockState::DIRTY
            && range_dirtied(s, offset, len).state(block)
            == SparseBlockState::DIRTY implies exists|i: int|
        0 <= i < entries.len() && (#[trigger] entries[i]).block_index == block by {
        lemma_not_dirty_contains(states, from, to, block as usize);
        let i = choose|i: int| 0 <= i < list.len() && list[i] == block as usize;
        assert(entries[i].block_index == block);
    }
    assert forall|i: int| 0 <= i < entries.len() implies {
        let entry = #[trigger] entries[i];
        &&& entry.sequence == s.sequence + i + 1
        &&& entry.block_index < s.num_blocks()
        &&& s.state(entry.block_index as int) != SparseBlockState::DIRTY
        &&& range_dirtied(s, offset, len).state(entry.block_index as int)
            == SparseBlockState::DIRTY
    } by {
        assert(list[i] < states.len());
        lemma_not_dirty_contains(states, from, to, list[i]);
        assert(list.contains(list[i]));
    }
}

proof fn lemma_marked_present_range(blocks: Blocks, from: int, to: int)
    requires
        0 <= from,
        blocks.states.len() <= u64::MAX,
    ensures
        blocks.marked_present_range(from, to).states.len() == blocks.states.len(),
        forall|i: int|
            0 <= i < blocks.states.len() ==> #[trigger] blocks.marked_present_range(
                from,
                to,
            ).states[i] == if from <= i < to && blocks.states[i] == SparseBlockState::NOT_PRESENT {
                SparseBlockState::CLEAN
            } else {
                blocks.states[i]
            },
        blocks.counted() ==> blocks.marked_present_range(from, to).counted(),
    decreases to - from,
{
    if to > from {
        lemma_marked_present_range(blocks, from, to - 1);
        let mid = blocks.marked_present_range(from, to - 1);
        if blocks.counted() && mid.has(to - 1) {
            law_counters_follow_states(mid, to - 1);
        }
        assert forall|i: int| 0 <= i < blocks.states.len() implies #[trigger]
            blocks.marked_present_range(from, to).states[i] == if from <= i < to
            && blocks.states[i] == SparseBlockState::NOT_PRESENT {
            SparseBlockState::CLEAN
        } else {
            blocks.states[i]
        } by {
            assert(mid.states[i] == if from <= i < to - 1 && blocks.states[i]
                == SparseBlockState::NOT_PRESENT {
                SparseBlockState::CLEAN
            } else {
                blocks.states[i]
            });
        }
    }
}

/// Claiming a range makes its absent blocks `CLEAN`, touches no other block and
/// keeps the counters in step. A dirty block stays dirty.
pub proof fn law_claim_range(s: CacheState, offset: int, len: int)
    requires
        s.bs() > 0,
        0 <= offset,
        0 < len,
        s.num_blocks() <= u64::MAX,
    ensures
        range_claimed(s, offset, len).num_blocks() == s.num_blocks(),
        forall|block: int|
            0 <= block < s.num_blocks() ==> #[trigger] range_claimed(s, offset, len).state(block)
                == if first_block(offset, s.bs()) <= block <= last_block(offset, len, s.bs())
                && s.state(block) == SparseBlockState::NOT_PRESENT {
                SparseBlockState::CLEAN
            } else {
                s.state(block)
            },
        s.blocks.counted() ==> range_claimed(s, offset, len).blocks.counted(),
{
    let from = first_block(offset, s.bs());
    let to = last_block(offset, len, s.bs()) + 1;
    lemma_range_blocks(offset, len, s.bs(), offset + len);
    lemma_marked_present_range(s.blocks, from, to);
    assert forall|block: int| 0 <= block < s.num_blocks() implies #[trigger] range_claimed(
        s,
        offset,
        len,
    ).state(block) == if from <= block < to && s.state(block) == SparseBlockState::NOT_PRESENT {
        SparseBlockState::CLEAN
    } else {
        s.state(block)
    } by {
        assert(s.blocks.marked_present_range(from, to).states[block] == if from <= block < to
            && s.blocks.states[block] == SparseBlockState::NOT_PRESENT {
            SparseBlockState::CLEAN
        } else {
            s.blocks.states[block]
        });
    }
}

/// Whether a promotion looks at the blocks that overlap with a range, and no others.
pub open spec fn covers_range(p: Promotion, block_size: int, offset: int, len: int) -> bool {
    forall|b: int|
        #![trigger b * block_size]
        p.block <= b <= p.end_block <==> b * block_size < offset + len && offset < b * block_size
            + block_size
}

proof fn lemma_covers(s: CacheState, offset: u64, len: u64, require_promotion: bool)
    requires
        s.bs() > 0,
        len > 0,
        offset + len <= u64::MAX,
    ensures
        covers_range(
            range_promotion(s, offset, len, require_promotion),
            s.bs(),
            offset as int,
            len as int,
        ),
{
    let p = range_promotion(s, offset, len, require_promotion);
    lemma_range_blocks(offset as int, len as int, s.bs(), u64::MAX as int);
    let last = last_block(offset as int, len as int, s.bs());
    assert(last <= offset + len - 1) by (nonlinear_arith)
        requires
            last == (offset + len - 1) / s.bs(),
            s.bs() >= 1,
            offset + len >= 1,
    ;
    assert forall|b: int|
        #![trigger b * s.bs()]
        p.block <= b <= p.end_block <==> b * s.bs() < offset + len && offset < b * s.bs()
            + s.bs() by {
        law_range_touches_blocks(offset as int, len as int, s.bs(), b);
    }
}

/// A write is refused exactly if the cache is fenced or the range does not lie on the device,
/// with the error that says so. Else the blocks that overlap with the range are promoted
/// first, and those whose data is gone make it fail exactly if the caller can fetch them. An
/// empty write needs nothing.
pub proof fn law_writes_are_started(
    cache: WriteCache<Active>,
    offset: u64,
    len: u64,
    plain: Result<Option<Promotion>, CacheError>,
    checked: Result<Option<Promotion>, CacheError>,
    zeroed: Result<Option<Promotion>, CacheError>,
)
    requires
        cache.wf(),
        call_ensures(WriteCache::<Active>::write, (&cache, offset, len), plain),
        call_ensures(WriteCache::<Active>::write_with_eviction_check, (&cache, offset, len), checked),
        call_ensures(WriteCache::<Active>::zero_range, (&cache, offset, len), zeroed),
    ensures
        ({
            let fenced = cache.inner.fenced;
            let size = cache.inner.config.device_size;
            let refused = fenced || offset + len > size;
            &&& plain is Err <==> refused
            &&& checked is Err <==> refused
            &&& zeroed is Err <==> fenced || (len > 0 && refused)
            &&& fenced ==> plain->Err_0 is Fenced && checked->Err_0 is Fenced
                && zeroed->Err_0 is Fenced
            &&& fenced ==> plain->Err_0->held == cache.inner.current_generation
                && checked->Err_0->held == cache.inner.current_generation && zeroed->Err_0->held
                == cache.inner.current_generation
            &&& !fenced && offset + len > size ==> plain->Err_0 is OffsetOutOfBounds
                && checked->Err_0 is OffsetOutOfBounds
            &&& !fenced && size < offset + len <= u64::MAX && len > 0 ==> plain->Err_0
                == CacheError::OffsetOutOfBounds((offset + len) as u64, size) && checked->Err_0
                == CacheError::OffsetOutOfBounds((offset + len) as u64, size) && zeroed->Err_0
                == CacheError::OffsetOutOfBounds((offset + len) as u64, size)
            &&& !refused && len == 0 ==> plain->Ok_0 is None && checked->Ok_0 is None
                && zeroed->Ok_0 is None
            &&& !refused && len > 0 ==> {
                let bs = cache.inner.config.block_size as int;
                &&& plain->Ok_0 matches Some(p) && covers_range(p, bs, offset as int, len as int)
                    && !p.require_promotion && p.flushing == cache.inner.flushing_open
                    && p.phase is Checking
                &&& checked->Ok_0 matches Some(p) && covers_range(p, bs, offset as int, len as int)
                    && p.require_promotion && p.flushing == cache.inner.flushing_open
                    && p.phase is Checking
                &&& zeroed->Ok_0 matches Some(p) && covers_range(p, bs, offset as int, len as int)
                    && !p.require_promotion && p.flushing == cache.inner.flushing_open
                    && p.phase is Checking
            }
        }),
{
    if len > 0 && offset + len <= u64::MAX {
        lemma_covers(cache@, offset, len, false);
        lemma_covers(cache@, offset, len, true);
    }
}

/// The second phase of a write promotes the blocks that overlap with the range, and fails
/// where the data of one is gone. A zero-copy write can do without that data exactly if it
/// covers every block that it touches. A fenced cache takes neither.
pub proof fn law_second_phase_is_started(
    cache: WriteCache<Active>,
    offset: u64,
    len: u64,
    second: Result<Option<Promotion>, CacheError>,
    kernel: Result<Option<Promotion>, CacheError>,
)
    requires
        cache.wf(),
        offset + len <= u64::MAX,
        call_ensures(WriteCache::<Active>::pwrite_and_commit, (&cache, offset, len), second),
        call_ensures(
            WriteCache::<Active>::zc_promote_for_write_with,
            (&cache, offset, len),
            kernel,
        ),
    ensures
        second is Err <==> cache.inner.fenced,
        kernel is Err <==> cache.inner.fenced,
        !cache.inner.fenced && len == 0 ==> second->Ok_0 is None && kernel->Ok_0 is None,
        !cache.inner.fenced && len > 0 ==> {
            let bs = cache.inner.config.block_size as int;
            &&& second->Ok_0 matches Some(p) && covers_range(p, bs, offset as int, len as int)
                && p.require_promotion && p.flushing == cache.inner.flushing_open
            &&& kernel->Ok_0 matches Some(p) && covers_range(p, bs, offset as int, len as int)
                && p.flushing == cache.inner.flushing_open && (p.require_promotion <==> !(
            offset as int % bs == 0 && len as int % bs == 0))
        },
{
    if len > 0 {
        lemma_covers(cache@, offset, len, true);
        lemma_covers(cache@, offset, len, false);
        lemma_covers(
            cache@,
            offset,
            len,
            !(offset as int % cache@.bs() == 0 && len as int % cache@.bs() == 0),
        );
    }
}

/// Whether a range was committed: every block that overlaps with it is dirty and every other
/// one as it was, each block that was not dirty before has one log entry, numbered from the
/// last number on, and nothing else changed but the checksums.
pub open spec fn is_committed(
    s: CacheState,
    offset: int,
    len: int,
    t: CacheState,
    entries: Seq<WalEntry>,
) -> bool {
    &&& t == (CacheState { blocks: t.blocks, sequence: t.sequence, crcs: t.crcs, ..s })
    &&& t.num_blocks() == s.num_blocks()
    &&& forall|b: int|
        0 <= b < s.num_blocks() ==> #[trigger] t.blocks.states[b] == if b * s.config.block_size
            < offset + len && offset < b * s.config.block_size + s.config.block_size {
            2
        } else {
            s.blocks.states[b]
        }
    &&& s.blocks.counted() ==> t.blocks.counted()
    &&& forall|b: int|
        0 <= b < s.num_blocks() && #[trigger] s.blocks.states[b] != 2 && b * s.config.block_size
            < offset + len && offset < b * s.config.block_size + s.config.block_size
            ==> exists|i: int| 0 <= i < entries.len() && (#[trigger] entries[i]).block_index == b
    &&& s.sequence + entries.len() <= u64::MAX ==> t.sequence == s.sequence + entries.len()
    &&& forall|i: int|
        0 <= i < entries.len() ==> {
            let b = (#[trigger] entries[i]).block_index as int;
            &&& b < s.num_blocks()
            &&& s.blocks.states[b] != 2
            &&& t.blocks.states[b] == 2
            &&& s.sequence + entries.len() <= u64::MAX ==> entries[i].sequence == s.sequence + i + 1
        }
    &&& forall|i: int, j: int|
        0 <= i < j < entries.len() ==> (#[trigger] entries[i]).block_index < (
        #[trigger] entries[j]).block_index
}

proof fn lemma_committed(s: CacheState, offset: int, len: int, crcs: Map<u32, Seq<u32>>)
    requires
        s.bs() > 0,
        0 <= offset,
        0 < len,
        offset + len <= s.ds(),
        s.num_blocks() == ceil_div(s.ds(), s.bs()),
        s.num_blocks() <= usize::MAX,
    ensures
        is_committed(
            s,
            offset,
            len,
            CacheState { crcs, ..range_dirtied(s, offset, len) },
            range_entries(s, offset, len),
        ),
{
    let t = CacheState { crcs, ..range_dirtied(s, offset, len) };
    let entries = range_entries(s, offset, len);
    let from = first_block(offset, s.bs());
    let to = last_block(offset, len, s.bs()) + 1;
    let list = not_dirty(s.blocks.states, from, to);
    lemma_range_blocks(offset, len, s.bs(), s.ds());
    law_commit_dirties_range(s, offset, len);
    lemma_not_dirty(s.blocks.states, from, to);
    lemma_not_dirty_ascends(s.blocks.states, from, to);
    assert forall|b: int| 0 <= b < s.num_blocks() implies #[trigger] t.blocks.states[b] == if b
        * s.config.block_size < offset + len && offset < b * s.config.block_size
        + s.config.block_size {
        2
    } else {
        s.blocks.states[b]
    } by {
        law_range_touches_blocks(offset, len, s.bs(), b);
        assert(range_dirtied(s, offset, len).state(b) == t.blocks.states[b]);
    }
    assert forall|b: int|
        0 <= b < s.num_blocks() && #[trigger] s.blocks.states[b] != 2 && b * s.config.block_size
            < offset + len && offset < b * s.config.block_size
            + s.config.block_size implies exists|i: int|
        0 <= i < entries.len() && (#[trigger] entries[i]).block_index == b by {
        law_range_touches_blocks(offset, len, s.bs(), b);
        lemma_not_dirty_contains(s.blocks.states, from, to, b as usize);
        let i = choose|i: int| 0 <= i < list.len() && list[i] == b as usize;
        assert(entries[i].block_index == b);
    }
    assert forall|i: int| 0 <= i < entries.len() implies {
        let b = (#[trigger] entries[i]).block_index as int;
        &&& b < s.num_blocks()
        &&& s.blocks.states[b] != 2
        &&& t.blocks.states[b] == 2
        &&& s.sequence + entries.len() <= u64::MAX ==> entries[i].sequence == s.sequence + i + 1
    } by {
        assert(list[i] < s.blocks.states.len());
        let b = list[i] as int;
        law_range_touches_blocks(offset, len, s.bs(), b);
        assert(range_dirtied(s, offset, len).state(b) == t.blocks.states[b]);
    }
    assert forall|i: int, j: int| 0 <= i < j < entries.len() implies (
    #[trigger] entries[i]).block_index < (#[trigger] entries[j]).block_index by {
        assert(list[i] < list[j]);
    }
}

proof fn lemma_not_dirty_ascends(states: Seq<u8>, from: int, to: int)
    requires
        0 <= from,
        states.len() <= usize::MAX,
    ensures
        forall|i: int, j: int|
            0 <= i < j < not_dirty(states, from, to).len() ==> #[trigger] not_dirty(
                states,
                from,
                to,
            )[i] < #[trigger] not_dirty(states, from, to)[j],
    decreases to - from,
{
    if to > from {
        let before = not_dirty(states, from, to - 1);
        let all = not_dirty(states, from, to);
        lemma_not_dirty_ascends(states, from, to - 1);
        lemma_not_dirty(states, from, to - 1);
        assert forall|i: int, j: int| 0 <= i < j < all.len() implies #[trigger] all[i]
            < #[trigger] all[j] by {
            assert(all[i] == before[i]);
            if j < before.len() {
                assert(all[j] == before[j]);
            }
        }
    }
}

/// A write, a zeroed range and a zero-copy write are committed alike: their blocks are dirty
/// and logged, and nothing else is. Only a zero-copy write leaves the checksums alone.
pub proof fn law_commits(
    written: &mut WriteCache<Active>,
    data: &[u8],
    write_entries: Vec<WalEntry>,
    zeroed: &mut WriteCache<Active>,
    zero_entries: Vec<WalEntry>,
    kernel: &mut WriteCache<Active>,
    kernel_entries: Vec<WalEntry>,
    offset: u64,
    len: u64,
)
    requires
        mut_ref_current(written).wf(),
        mut_ref_current(zeroed).wf(),
        mut_ref_current(kernel).wf(),
        data@.len() > 0,
        len > 0,
        offset + data@.len() <= mut_ref_current(written)@.ds(),
        offset + len <= mut_ref_current(zeroed)@.ds(),
        offset + len <= mut_ref_current(kernel)@.ds(),
        call_ensures(WriteCache::<Active>::commit_write, (written, offset, data), write_entries),
        call_ensures(WriteCache::<Active>::commit_zero_range, (zeroed, offset, len), zero_entries),
        call_ensures(
            WriteCache::<Active>::commit_after_zc_write_with,
            (kernel, offset, len),
            kernel_entries,
        ),
    ensures
        is_committed(
            mut_ref_current(written)@,
            offset as int,
            data@.len() as int,
            mut_ref_future(written)@,
            write_entries@,
        ),
        is_committed(
            mut_ref_current(zeroed)@,
            offset as int,
            len as int,
            mut_ref_future(zeroed)@,
            zero_entries@,
        ),
        is_committed(
            mut_ref_current(kernel)@,
            offset as int,
            len as int,
            mut_ref_future(kernel)@,
            kernel_entries@,
        ),
        mut_ref_future(kernel)@.crcs == mut_ref_current(kernel)@.crcs,
{
    lemma_committed(
        mut_ref_current(written)@,
        offset as int,
        data@.len() as int,
        mut_ref_future(written)@.crcs,
    );
    lemma_committed(
        mut_ref_current(zeroed)@,
        offset as int,
        len as int,
        mut_ref_future(zeroed)@.crcs,
    );
    lemma_committed(
        mut_ref_current(kernel)@,
        offset as int,
        len as int,
        mut_ref_future(kernel)@.crcs,
    );
}

/// After the first phase of a write none of its blocks is absent: an absent one is clean, and
/// every other one, in the range and outside, is as it was, as is everything else. A write
/// that is refused changes nothing.
pub proof fn law_first_phase_claims_blocks(
    cache: &mut WriteCache<Active>,
    offset: u64,
    len: u64,
    result: Result<(), CacheError>,
)
    requires
        mut_ref_current(cache).wf(),
        call_ensures(WriteCache::<Active>::pre_write, (cache, offset, len), result),
    ensures
        ({
            let s = mut_ref_current(cache)@;
            let t = mut_ref_future(cache)@;
            let bs = s.config.block_size;
            &&& result is Err <==> s.fenced || offset + len > s.config.device_size
            &&& result is Err && s.fenced ==> result->Err_0 is Fenced
            &&& result is Err && !s.fenced ==> result->Err_0 is OffsetOutOfBounds
            &&& result is Err || len == 0 ==> t == s
            &&& t == (CacheState { blocks: t.blocks, ..s })
            &&& t.num_blocks() == s.num_blocks()
            &&& t.blocks.dirty == s.blocks.dirty && t.blocks.syncing == s.blocks.syncing
            &&& result is Ok && len > 0 ==> forall|b: int|
                0 <= b < s.num_blocks() ==> #[trigger] t.blocks.states[b] == if b * bs < offset
                    + len && offset < b * bs + bs && s.blocks.states[b] == 0 {
                    1
                } else {
                    s.blocks.states[b]
                }
        }),
{
    let s = mut_ref_current(cache)@;
    let t = mut_ref_future(cache)@;
    if result is Ok && len > 0 {
        lemma_range_blocks(offset as int, len as int, s.bs(), s.ds());
        let from = first_block(offset as int, s.bs());
        let to = last_block(offset as int, len as int, s.bs()) + 1;
        law_range_is_present(s.blocks, from, to);
        assert forall|b: int| 0 <= b < s.num_blocks() implies #[trigger] t.blocks.states[b]
            == if b * s.config.block_size < offset + len && offset < b * s.config.block_size
            + s.config.block_size && s.blocks.states[b] == 0 {
            1
        } else {
            s.blocks.states[b]
        } by {
            law_range_touches_blocks(offset as int, len as int, s.bs(), b);
            assert(s.blocks.has(b));
            assert(s.blocks.marked_present_range(from, to).states[b] == t.blocks.states[b]);
        }
    }
}

/// A range has new blocks exactly if one that overlaps with it is absent or lies beyond the
/// device.
pub proof fn law_new_blocks(cache: WriteCache<Active>, offset: u64, len: u64, any: bool)
    requires
        cache.wf(),
        len > 0,
        offset + len <= u64::MAX,
        call_ensures(WriteCache::<Active>::has_new_blocks, (&cache, offset, len), any),
    ensures
        ({
            let bs = cache.inner.config.block_size as int;
            let states = cache@.blocks.states;
            any <==> exists|b: int|
                #![trigger b * bs]
                0 <= b && b * bs < offset + len && offset < b * bs + bs && (b >= states.len()
                    || states[b] == 0)
        }),
{
    let bs = cache@.bs();
    lemma_range_blocks(offset as int, len as int, bs, u64::MAX as int);
    if any {
        let b = choose|b: int|
            first_block(offset as int, bs) <= b <= last_block(offset as int, len as int, bs)
                && #[trigger] is_new_block(cache@, b);
        law_range_touches_blocks(offset as int, len as int, bs, b);
        assert(b * bs < offset + len);
    }
    if exists|b: int|
        #![trigger b * bs]
        0 <= b && b * bs < offset + len && offset < b * bs + bs && (b >= cache@.blocks.states.len()
            || cache@.blocks.states[b] == 0) {
        let b = choose|b: int|
            #![trigger b * bs]
            0 <= b && b * bs < offset + len && offset < b * bs + bs && (b
                >= cache@.blocks.states.len() || cache@.blocks.states[b] == 0);
        law_range_touches_blocks(offset as int, len as int, bs, b);
        assert(is_new_block(cache@, b));
    }
}

/// The writes that zero a range tile it: the first starts where the range does, each starts
/// where the one before it ends, and the last ends where the range does. None is empty or
/// longer than 128 KiB.
pub proof fn law_zero_writes_tile_the_range(offset: u64, len: u64, chunks: Vec<(u64, usize)>)
    requires
        call_ensures(zero_range_chunks, (offset, len), chunks),
        offset + len <= u64::MAX,
    ensures
        chunks@.len() == 0 <==> len == 0,
        chunks@.len() > 0 ==> chunks@[0].0 == offset && chunks@.last().0 + chunks@.last().1
            == offset + len,
        forall|i: int|
            0 <= i < chunks@.len() - 1 ==> (#[trigger] chunks@[i]).0 + chunks@[i].1 == chunks@[i
                + 1].0,
        forall|i: int|
            0 <= i < chunks@.len() ==> 0 < (#[trigger] chunks@[i]).1 <= 131_072 && chunks@[i].0
                + chunks@[i].1 <= offset + len,
        forall|i: int| 0 <= i < chunks@.len() - 1 ==> (#[trigger] chunks@[i]).1 == 131_072,
{
    assert forall|i: int| 0 <= i < chunks@.len() implies 0 < (#[trigger] chunks@[i]).1 <= 131_072
        && chunks@[i].0 + chunks@[i].1 <= offset + len && chunks@[i].0 == offset + i * 131_072 by {}
}

/// Fetched data lands exactly if its claim still holds and the block is still clean. A fenced
/// cache takes none, and none beyond the device.
pub proof fn law_only_valid_claims_land(
    cache: WriteCache<Active>,
    offset: u64,
    len: u64,
    block_idx: usize,
    claim_valid: bool,
    result: Result<Materialization, CacheError>,
)
    requires
        cache.wf(),
        call_ensures(
            WriteCache::<Active>::write_materialized,
            (&cache, offset, len, block_idx, claim_valid),
            result,
        ),
    ensures
        result == Ok::<Materialization, CacheError>(Materialization::Land) <==> !cache.inner.fenced
            && len > 0 && offset + len <= cache.inner.config.device_size && claim_valid
            && cache@.blocks.states[block_idx as int] == 1,
        result is Err <==> cache.inner.fenced || (len > 0 && offset + len
            > cache.inner.config.device_size),
        result is Ok && len > 0 ==> !(result->Ok_0 is Nothing),
{
}

/// A cache that syncs its log syncs the data before it, whenever something was appended;
/// another one hands the entries to the operating system.
pub proof fn law_durability(cache: WriteCache<Active>, appended: usize, d: WalDurability)
    requires
        call_ensures(WriteCache::<Active>::wal_durability, (&cache, appended), d),
    ensures
        d is Nothing <==> appended == 0,
        d is SyncDataThenWal <==> appended > 0 && cache.inner.config.wal_sync,
{
}

/// Marking a range of blocks dirty marks those that are on the device, and logs those of them
/// that were not dirty before, in ascending order, each under the next number.
pub proof fn law_blocks_are_marked_and_logged(
    inner: &mut CacheInner,
    start_block: u64,
    end_block: u64,
    entries: Vec<WalEntry>,
    b: int,
    i: int,
)
    requires
        mut_ref_current(inner).wf(),
        end_block < u64::MAX,
        call_ensures(CacheInner::wal_append_and_mark_dirty, (inner, start_block, end_block), entries),
        0 <= b < mut_ref_current(inner)@.num_blocks(),
    ensures
        ({
            let s = mut_ref_current(inner)@;
            let t = mut_ref_future(inner)@;
            &&& t.num_blocks() == s.num_blocks()
            &&& start_block <= b <= end_block ==> t.blocks.states[b] == 2
            &&& !(start_block <= b <= end_block) ==> t.blocks.states[b] == s.blocks.states[b]
            &&& s.blocks.counted() ==> t.blocks.counted()
            &&& (exists|j: int| 0 <= j < entries@.len() && (#[trigger] entries@[j]).block_index == b)
                <==> start_block <= b <= end_block && s.blocks.states[b] != 2
            &&& 0 <= i < entries@.len() && s.sequence + entries@.len() <= u64::MAX
                ==> entries@[i].sequence == s.sequence + i + 1
            &&& s.sequence + entries@.len() <= u64::MAX ==> t.sequence == s.sequence
                + entries@.len()
            &&& t == (CacheState { blocks: t.blocks, sequence: t.sequence, ..s })
        }),
{
    let s = mut_ref_current(inner)@;
    let states = s.blocks.states;
    let from = start_block as int;
    let to = end_block + 1;
    let list = not_dirty(states, from, to);
    lemma_not_dirty(states, from, to);
    lemma_made_dirty_all(s.blocks, list);
    lemma_not_dirty_contains(states, from, to, b as usize);
    assert(s.blocks.made_dirty_all(list).states[b] == if list.contains(b as usize) {
        SparseBlockState::DIRTY
    } else {
        states[b]
    });
    if list.contains(b as usize) {
        let j = choose|j: int| 0 <= j < list.len() && list[j] == b as usize;
        assert(entries@[j].block_index == b);
    }
    if exists|j: int| 0 <= j < entries@.len() && (#[trigger] entries@[j]).block_index == b {
        let j = choose|j: int| 0 <= j < entries@.len() && (#[trigger] entries@[j]).block_index == b;
        assert(list[j] == b as usize);
    }
}

/// A committed write leaves the checksum of every page that it covers, and no checksum of one
/// that it covers in part; so does a zeroed range, with the checksum of a page of zeros.
pub proof fn law_commit_captures_checksums(
    written: &mut WriteCache<Active>,
    data: &[u8],
    write_entries: Vec<WalEntry>,
    zeroed: &mut WriteCache<Active>,
    len: u64,
    zero_entries: Vec<WalEntry>,
    offset: u64,
    b: u32,
    p: int,
)
    requires
        mut_ref_current(written).wf(),
        mut_ref_current(zeroed).wf(),
        data@.len() > 0,
        len > 0,
        call_ensures(WriteCache::<Active>::commit_write, (written, offset, data), write_entries),
        call_ensures(WriteCache::<Active>::commit_zero_range, (zeroed, offset, len), zero_entries),
        0 <= p,
    ensures
        ({
            let bs = mut_ref_current(written)@.bs();
            let crcs = mut_ref_future(written)@.crcs;
            let start = b * bs + p * 4096;
            let end = offset + data@.len();
            p < bs / 4096 && start < end && offset < start + 4096 ==> crcs.contains_key(b) && crcs[b][p]
                == if offset <= start && start + 4096 <= end {
                crc32_iscsi_of(data@.subrange(start - offset, start - offset + 4096))
            } else {
                0
            }
        }),
        ({
            let bs = mut_ref_current(zeroed)@.bs();
            let crcs = mut_ref_future(zeroed)@.crcs;
            let start = b * bs + p * 4096;
            let end = offset + len;
            p < bs / 4096 && start < end && offset < start + 4096 ==> crcs.contains_key(b) && crcs[b][p]
                == if offset <= start && start + 4096 <= end {
                crc32_iscsi_of(Seq::new(4096, |i: int| 0u8))
            } else {
                0
            }
        }),
{
    let s = mut_ref_current(written)@;
    let z = mut_ref_current(zeroed)@;
    law_range_touches_blocks(offset as int, data@.len() as int, s.bs(), b as int);
    law_range_touches_blocks(offset as int, len as int, z.bs(), b as int);
    assert(zero_page() =~= Seq::new(4096, |i: int| 0u8));
    if p < s.bs() / 4096 {
        assert(p * 4096 + 4096 <= s.bs());
    }
    if p < z.bs() / 4096 {
        assert(p * 4096 + 4096 <= z.bs());
    }
    mut_ref_current(written).inner.page_crcs.lemma_lengths(b);
    mut_ref_current(zeroed).inner.page_crcs.lemma_lengths(b);
}

/// Sequence numbers go on one by one and start anew after the last of 64 bits.
pub proof fn law_sequence_goes_on(start: u64, k: nat)
    ensures
        seq_after(start, 0) == start,
        seq_after(start, k + 1) == if seq_after(start, k) == u64::MAX {
            0
        } else {
            seq_after(start, k) + 1
        },
{
    let m = 0x1_0000_0000_0000_0000int;
    let a = (start + k) % m;
    let q = (start + k) / m;
    lemma_fundamental_div_mod(start + k, m);
    if a == m - 1 {
        lemma_fundamental_div_mod_converse(start + k + 1, m, q + 1, 0);
    } else {
        lemma_fundamental_div_mod_converse(start + k + 1, m, q, a + 1);
    }
}

/// An empty range inside a block has the block, and one between two blocks has none.
pub proof fn law_new_blocks_of_empty_range(cache: WriteCache<Active>, offset: u64, any: bool)
    requires
        cache.wf(),
        offset > 0,
        call_ensures(WriteCache::<Active>::has_new_blocks, (&cache, offset, 0), any),
    ensures
        ({
            let b = offset as int / cache@.bs();
            any <==> offset as int % cache@.bs() != 0 && (b >= cache@.blocks.states.len()
                || cache@.blocks.states[b] == 0)
        }),
{
    let bs = cache@.bs();
    let b = offset as int / bs;
    let r = offset as int % bs;
    lemma_fundamental_div_mod(offset as int, bs);
    lemma_div_pos_is_pos(offset as int, bs);
    assert((b - 1) * bs == b * bs - bs) by (nonlinear_arith);
    assert(bs * b == b * bs) by (nonlinear_arith);
    if r == 0 {
        lemma_fundamental_div_mod_converse(offset - 1, bs, b - 1, bs - 1);
    } else {
        lemma_fundamental_div_mod_converse(offset - 1, bs, b, r - 1);
        assert(first_block(offset as int, bs) == b && last_block(offset as int, 0, bs) == b);
        if b >= cache@.blocks.states.len() || cache@.blocks.states[b] == 0 {
            assert(is_new_block(cache@, b));
        }
    }
}

} // verus!
