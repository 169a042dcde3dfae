//! Promotion: copying blocks that a flush has claimed back from the flushing
//! file before a write touches them.
//!
//! When a guest writes to a block being flushed, its data lives only in the
//! flushing file. Copying the whole block into the active file first keeps it
//! from being split across two files. The caller reads and writes the files;
//! the functions here say what to do next.

use vstd::prelude::*;
use crate::write_cache::blocks::{law_counters_follow_states, wrap_dec, wrap_inc, Blocks};
use crate::write_cache::config::ceil_div;
use crate::write_cache::error::CacheError;
use crate::write_cache::geometry::{
    block_start, lemma_block_on_device, valid_bytes, valid_len,
};
use crate::write_cache::inner::{all_zero, is_zero_block, CacheInner, CacheState};
use crate::write_cache::state_map::SparseBlockState;

verus! {

/// What a promotion waits for.
#[derive(Clone, Copy, Debug, PartialEq, Eq, Structural)]
pub enum PromotePhase {
    /// The next block is to be looked at.
    Checking,
    /// Another promotion holds the claim of the block.
    Waiting,
    /// The block is being read from the flushing file; `seen` was its state.
    Reading { seen: u8 },
    /// The block is being written to the active file; `seen` was its state.
    Writing { seen: u8 },
    /// Nothing is left to do.
    Finished,
}

/// The promotion of a range of blocks.
#[derive(Clone, Copy, Debug)]
pub struct Promotion {
    /// The block at hand.
    pub block: u64,
    /// The last block of the range.
    pub end_block: u64,
    /// Fail rather than leave a block whose data cannot be recovered.
    pub require_promotion: bool,
    /// Whether there was a flushing file when the promotion started.
    pub flushing: bool,
    pub phase: PromotePhase,
}

/// What the caller has to do next.
pub enum PromoteAction {
    /// Read `len` bytes at `offset` of the flushing file.
    ReadFlushing { offset: u64, len: usize },
    /// Write the bytes just read at `offset` of the active file.
    WriteActive { offset: u64, len: usize },
    /// Wait until the claim of block `idx` is released, up to the deadline of
    /// the block.
    WaitForRelease { idx: usize },
    /// Every block of the range is ready to be written.
    Done,
    /// The range cannot be written.
    Failed(CacheError),
}

/// What is to be done about one block.
pub enum BlockCheck {
    /// The block can be written.
    Pass,
    /// The data of the block is gone from the local files.
    Evict,
    /// Another promotion is at work on the block.
    Wait,
    /// The block has to be copied from the flushing file.
    Read,
}

/// What is to be done about a block.
///
/// With a flushing file, a block that a flush has claimed or evicted is copied
/// from it. A `CLEAN` block is someone's claim: it passes, unless the claim is
/// held by a task that is about to fill the block from object storage. Without
/// a flushing file the data of such blocks cannot be recovered here.
pub open spec fn promote_check(s: CacheState, p: Promotion, block: int) -> BlockCheck {
    let state = s.state(block);
    let held = s.claims.contains(block as usize);
    let gone = state == SparseBlockState::SYNCING || state == SparseBlockState::NOT_PRESENT;
    if block >= s.num_blocks() {
        BlockCheck::Pass
    } else if state == SparseBlockState::CLEAN && p.require_promotion && held {
        BlockCheck::Evict
    } else if !gone {
        BlockCheck::Pass
    } else if p.flushing {
        if held {
            BlockCheck::Wait
        } else {
            BlockCheck::Read
        }
    } else if p.require_promotion {
        BlockCheck::Evict
    } else {
        BlockCheck::Pass
    }
}

/// The first block from `block` on that does not pass, or the one behind the
/// range.
pub open spec fn promote_stop(s: CacheState, p: Promotion, block: int) -> int
    decreases p.end_block + 1 - block,
{
    if block > p.end_block || !(promote_check(s, p, block) is Pass) {
        block
    } else {
        promote_stop(s, p, block + 1)
    }
}

/// Where a promotion stands once it has looked at the blocks from `block` on,
/// and what the caller has to do.
pub open spec fn scan_outcome(
    s: CacheState,
    p: Promotion,
    block: int,
    after: CacheState,
    q: Promotion,
    action: PromoteAction,
) -> bool {
    let stop = promote_stop(s, p, block);
    let idx = stop as usize;
    if stop > p.end_block {
        &&& after == s
        &&& q == (Promotion { phase: PromotePhase::Finished, ..p })
        &&& action is Done
    } else {
        match promote_check(s, p, stop) {
            BlockCheck::Evict => {
                &&& after == s
                &&& q == (Promotion { phase: PromotePhase::Finished, ..p })
                &&& action == PromoteAction::Failed(CacheError::BlockEvicted)
            },
            BlockCheck::Wait => {
                &&& after == s
                &&& q == (Promotion { block: stop as u64, phase: PromotePhase::Waiting, ..p })
                &&& action == (PromoteAction::WaitForRelease { idx })
            },
            BlockCheck::Read => {
                &&& after == (CacheState { claims: s.claims.insert(idx), ..s })
                &&& q == (Promotion {
                    block: stop as u64,
                    phase: PromotePhase::Reading { seen: s.state(stop) },
                    ..p
                })
                &&& action == (PromoteAction::ReadFlushing {
                    offset: block_start(stop, s.bs()) as u64,
                    len: valid_len(stop, s.bs(), s.ds()) as usize,
                })
            },
            BlockCheck::Pass => false,
        }
    }
}

/// Block `idx` made dirty if its state still is `seen`.
pub open spec fn promoted(blocks: Blocks, idx: int, seen: u8) -> Blocks {
    if blocks.states[idx] == seen {
        Blocks {
            states: blocks.states.update(idx, SparseBlockState::DIRTY),
            dirty: wrap_inc(blocks.dirty),
            syncing: if seen == SparseBlockState::SYNCING {
                wrap_dec(blocks.syncing)
            } else {
                blocks.syncing
            },
        }
    } else {
        blocks
    }
}

/// The claim of the block at hand given up.
pub open spec fn released(s: CacheState, p: Promotion) -> CacheState {
    CacheState { claims: s.claims.remove(p.block as usize), ..s }
}

impl Promotion {
    /// A promotion of the blocks from `start_block` to `end_block`.
    pub fn new(inner: &CacheInner, start_block: u64, end_block: u64, require_promotion: bool) -> (p:
        Promotion)
        ensures
            p == (Promotion {
                block: start_block,
                end_block,
                require_promotion,
                flushing: inner@.flushing_open,
                phase: PromotePhase::Checking,
            }),
    {
        Promotion {
            block: start_block,
            end_block,
            require_promotion,
            flushing: inner.flushing_open,
            phase: PromotePhase::Checking,
        }
    }

    /// The block at hand is one of the device where data of it is under way.
    pub open spec fn wf(self, s: CacheState) -> bool {
        &&& self.end_block < u64::MAX
        &&& (self.phase is Reading || self.phase is Writing ==> self.block < s.num_blocks()
            && self.block <= self.end_block)
        &&& (self.phase is Waiting ==> self.block <= self.end_block)
    }

    /// The promotion moved on to the block behind the one at hand.
    pub open spec fn next(self) -> Promotion {
        Promotion { block: (self.block + 1) as u64, phase: PromotePhase::Checking, ..self }
    }

    /// The state that the block at hand had when its copy started.
    pub open spec fn seen(self) -> u8 {
        match self.phase {
            PromotePhase::Reading { seen } => seen,
            PromotePhase::Writing { seen } => seen,
            _ => SparseBlockState::NOT_PRESENT,
        }
    }
}

impl CacheInner {
    fn check_block(&self, p: &Promotion, block: u64) -> (check: BlockCheck)
        requires
            self.wf(),
        ensures
            check == promote_check(self@, *p, block as int),
    {
        let num_blocks: usize = self.blocks.num_blocks();
        if block >= num_blocks as u64 {
            return BlockCheck::Pass;
        }
        let idx: usize = block as usize;
        let state: u8 = self.blocks.get(idx);
        if state == SparseBlockState::CLEAN {
            if p.require_promotion && self.promote_claim.is_claimed(idx) {
                return BlockCheck::Evict;
            }
            return BlockCheck::Pass;
        }
        if state != SparseBlockState::SYNCING && state != SparseBlockState::NOT_PRESENT {
            return BlockCheck::Pass;
        }
        if p.flushing {
            if self.promote_claim.is_claimed(idx) {
                BlockCheck::Wait
            } else {
                BlockCheck::Read
            }
        } else if p.require_promotion {
            BlockCheck::Evict
        } else {
            BlockCheck::Pass
        }
    }

    fn scan_blocks(&mut self, p: &mut Promotion) -> (action: PromoteAction)
        requires
            old(self).wf(),
            old(p).end_block < u64::MAX,
        ensures
            final(self).wf(),
            final(p).wf(final(self)@),
            scan_outcome(
                old(self)@,
                *old(p),
                old(p).block as int,
                final(self)@,
                *final(p),
                action,
            ),
    {
        let from: u64 = p.block;
        let mut block: u64 = p.block;
        while block <= p.end_block
            invariant
                self.wf(),
                self@ == old(self)@,
                *p == *old(p),
                p.end_block < u64::MAX,
                from == old(p).block,
                from <= block,
                block <= p.end_block + 1 || block == from,
                promote_stop(self@, *p, from as int) == promote_stop(self@, *p, block as int),
            decreases p.end_block + 1 - block,
        {
            let check = self.check_block(p, block);
            assert(!(check is Pass) ==> promote_stop(self@, *p, block as int) == block);
            match check {
                BlockCheck::Pass => {},
                BlockCheck::Evict => {
                    p.phase = PromotePhase::Finished;
                    return PromoteAction::Failed(CacheError::BlockEvicted);
                },
                BlockCheck::Wait => {
                    p.block = block;
                    p.phase = PromotePhase::Waiting;
                    return PromoteAction::WaitForRelease { idx: block as usize };
                },
                BlockCheck::Read => {
                    proof {
                        lemma_block_on_device(block as int, self@.bs(), self@.ds());
                    }
                    let idx: usize = block as usize;
                    let seen: u8 = self.blocks.get(idx);
                    let offset: u64 = block * self.config.block_size as u64;
                    let len: usize = valid_bytes(
                        block,
                        self.config.block_size,
                        self.config.device_size,
                    );
                    let _ = self.promote_claim.try_claim(idx);
                    p.block = block;
                    p.phase = PromotePhase::Reading { seen };
                    return PromoteAction::ReadFlushing { offset, len };
                },
            }
            block = block + 1;
        }
        p.phase = PromotePhase::Finished;
        PromoteAction::Done
    }

    /// Looks at the blocks from the one at hand on: at the start of a promotion
    /// and after the claim that it waited for was released. A waiter looks at
    /// the block again, since the holder of the claim may have copied nothing.
    pub fn promote_next(&mut self, p: &mut Promotion) -> (action: PromoteAction)
        requires
            old(self).wf(),
            old(p).wf(old(self)@),
            old(p).phase is Checking || old(p).phase is Waiting,
        ensures
            final(self).wf(),
            final(p).wf(final(self)@),
            scan_outcome(
                old(self)@,
                *old(p),
                old(p).block as int,
                final(self)@,
                *final(p),
                action,
            ),
    {
        self.scan_blocks(p)
    }

    /// The claim was not released in time. A write that needs the old data of
    /// the block fails; any other goes on.
    pub fn promote_timed_out(&mut self, p: &mut Promotion) -> (action: PromoteAction)
        requires
            old(self).wf(),
            old(p).wf(old(self)@),
            old(p).phase is Waiting,
        ensures
            final(self).wf(),
            final(p).wf(final(self)@),
            if old(p).require_promotion {
                &&& final(self)@ == old(self)@
                &&& *final(p) == (Promotion { phase: PromotePhase::Finished, ..*old(p) })
                &&& action == PromoteAction::Failed(CacheError::BlockEvicted)
            } else {
                scan_outcome(
                    old(self)@,
                    old(p).next(),
                    old(p).block + 1,
                    final(self)@,
                    *final(p),
                    action,
                )
            },
    {
        if p.require_promotion {
            p.phase = PromotePhase::Finished;
            return PromoteAction::Failed(CacheError::BlockEvicted);
        }
        p.block = p.block + 1;
        p.phase = PromotePhase::Checking;
        self.scan_blocks(p)
    }

    /// `bytes` were read from the flushing file.
    ///
    /// The flushing file is only authoritative for `SYNCING` blocks. A block
    /// that is not present may have been evicted by an earlier flush, and then
    /// this file holds only zeros for it: such zeros are never copied.
    pub fn promote_read(&mut self, p: &mut Promotion, bytes: &[u8]) -> (action: PromoteAction)
        requires
            old(self).wf(),
            old(p).wf(old(self)@),
            old(p).phase is Reading,
        ensures
            final(self).wf(),
            final(p).wf(final(self)@),
            if old(p).seen() == SparseBlockState::NOT_PRESENT && all_zero(bytes@) {
                if old(p).require_promotion {
                    &&& final(self)@ == released(old(self)@, *old(p))
                    &&& *final(p) == (Promotion { phase: PromotePhase::Finished, ..*old(p) })
                    &&& action == PromoteAction::Failed(CacheError::BlockEvicted)
                } else {
                    scan_outcome(
                        released(old(self)@, *old(p)),
                        old(p).next(),
                        old(p).block + 1,
                        final(self)@,
                        *final(p),
                        action,
                    )
                }
            } else {
                &&& final(self)@ == old(self)@
                &&& *final(p) == (Promotion {
                    phase: PromotePhase::Writing { seen: old(p).seen() },
                    ..*old(p)
                })
                &&& action == (PromoteAction::WriteActive {
                    offset: block_start(old(p).block as int, old(self)@.bs()) as u64,
                    len: valid_len(old(p).block as int, old(self)@.bs(), old(self)@.ds()) as usize,
                })
            },
    {
        let seen: u8 = match p.phase {
            PromotePhase::Reading { seen } => seen,
            _ => SparseBlockState::NOT_PRESENT,
        };
        if seen == SparseBlockState::NOT_PRESENT && is_zero_block(bytes) {
            self.promote_claim.release(p.block as usize);
            if p.require_promotion {
                p.phase = PromotePhase::Finished;
                return PromoteAction::Failed(CacheError::BlockEvicted);
            }
            p.block = p.block + 1;
            p.phase = PromotePhase::Checking;
            return self.scan_blocks(p);
        }
        proof {
            lemma_block_on_device(p.block as int, self@.bs(), self@.ds());
        }
        let offset: u64 = p.block * self.config.block_size as u64;
        let len: usize = valid_bytes(p.block, self.config.block_size, self.config.device_size);
        p.phase = PromotePhase::Writing { seen };
        PromoteAction::WriteActive { offset, len }
    }

    /// The block was written to the active file: it becomes dirty, unless an
    /// eviction changed its state in the meantime, and its claim is released.
    pub fn promote_written(&mut self, p: &mut Promotion) -> (action: PromoteAction)
        requires
            old(self).wf(),
            old(p).wf(old(self)@),
            old(p).phase is Writing,
        ensures
            final(self).wf(),
            final(p).wf(final(self)@),
            scan_outcome(
                CacheState {
                    blocks: promoted(old(self)@.blocks, old(p).block as int, old(p).seen()),
                    ..released(old(self)@, *old(p))
                },
                old(p).next(),
                old(p).block + 1,
                final(self)@,
                *final(p),
                action,
            ),
    {
        let seen: u8 = match p.phase {
            PromotePhase::Writing { seen } => seen,
            _ => SparseBlockState::NOT_PRESENT,
        };
        let idx: usize = p.block as usize;
        if self.blocks.map.cas(idx, seen, SparseBlockState::DIRTY).is_ok() {
            if seen == SparseBlockState::SYNCING {
                self.blocks.syncing_block_count = self.blocks.syncing_block_count.wrapping_sub(1);
            }
            self.blocks.dirty_block_count = self.blocks.dirty_block_count.wrapping_add(1);
        }
        self.promote_claim.release(idx);
        p.block = p.block + 1;
        p.phase = PromotePhase::Checking;
        self.scan_blocks(p)
    }

    /// Reading or writing the block failed: its claim is released, and the
    /// promotion ends with the error of the file operation.
    pub fn promote_failed(&mut self, p: &mut Promotion)
        requires
            old(self).wf(),
            old(p).wf(old(self)@),
            old(p).phase is Reading || old(p).phase is Writing,
        ensures
            final(self).wf(),
            final(self)@ == released(old(self)@, *old(p)),
            *final(p) == (Promotion { phase: PromotePhase::Finished, ..*old(p) }),
    {
        self.promote_claim.release(p.block as usize);
        p.phase = PromotePhase::Finished;
    }
}

proof fn lemma_stop(s: CacheState, p: Promotion, block: int)
    ensures
        promote_stop(s, p, block) >= block,
        promote_stop(s, p, block) <= p.end_block + 1 || promote_stop(s, p, block) == block,
        forall|b: int|
            block <= b < promote_stop(s, p, block) ==> #[trigger] promote_check(s, p, b) is Pass,
        promote_stop(s, p, block) <= p.end_block ==> !(promote_check(
            s,
            p,
            promote_stop(s, p, block),
        ) is Pass),
    decreases p.end_block + 1 - block,
{
    if block <= p.end_block && promote_check(s, p, block) is Pass {
        lemma_stop(s, p, block + 1);
    }
}

/// Whether a block can be written as it is: its data lies in the active file, or is not
/// needed. Without a flushing file only a caller that needs the data of absent blocks asks
/// for more.
pub open spec fn writable(s: CacheState, p: Promotion, b: int) -> bool {
    b >= s.num_blocks() || s.blocks.states[b] == 2 || (s.blocks.states[b] == 1 && !(
    p.require_promotion && s.claims.contains(b as usize))) || s.blocks.states[b] > 3 || (
    s.blocks.states[b] != 1 && !p.flushing && !p.require_promotion)
}

/// What a promotion does about the blocks from `from` to the end of its range, in order. It
/// passes over those that can be written, and is done when that is all of them. The first other
/// one is copied from the flushing file, all of it that lies on the device, if a flush has
/// claimed or evicted it; if somebody else is copying it, that is waited for. Where its data
/// cannot be had and is needed, the promotion fails. Nothing changes but that the block to copy
/// is claimed.
pub open spec fn goes_on(
    s: CacheState,
    p: Promotion,
    from: int,
    t: CacheState,
    q: Promotion,
    action: PromoteAction,
) -> bool {
    &&& t == (CacheState { claims: t.claims, ..s })
    &&& q.end_block == p.end_block
    &&& q.require_promotion == p.require_promotion
    &&& q.flushing == p.flushing
    &&& action is Done <==> forall|b: int|
        from <= b <= p.end_block ==> #[trigger] writable(s, p, b)
    &&& match action {
        PromoteAction::Done => t.claims == s.claims && q.phase is Finished,
        PromoteAction::ReadFlushing { offset, len } => {
            let b = q.block as int;
            &&& p.flushing
            &&& from <= b <= p.end_block
            &&& forall|c: int| from <= c < b ==> #[trigger] writable(s, p, c)
            &&& b < s.num_blocks()
            &&& s.blocks.states[b] == 0 || s.blocks.states[b] == 3
            &&& q.phase == (PromotePhase::Reading { seen: s.blocks.states[b] })
            &&& !s.claims.contains(b as usize)
            &&& t.claims == s.claims.insert(b as usize)
            &&& offset == b * s.config.block_size
            &&& offset + len == s.config.device_size || (len == s.config.block_size && offset + len
                <= s.config.device_size)
            &&& 0 < len <= s.config.block_size
        },
        PromoteAction::WaitForRelease { idx } => {
            &&& p.flushing
            &&& from <= idx <= p.end_block
            &&& forall|c: int| from <= c < idx ==> #[trigger] writable(s, p, c)
            &&& idx < s.num_blocks()
            &&& s.blocks.states[idx as int] == 0 || s.blocks.states[idx as int] == 3
            &&& s.claims.contains(idx)
            &&& t.claims == s.claims
            &&& q.phase is Waiting
            &&& q.block == idx
        },
        PromoteAction::Failed(e) => {
            &&& e is BlockEvicted
            &&& p.require_promotion
            &&& t.claims == s.claims
            &&& q.phase is Finished
            &&& exists|b: int|
                from <= b <= p.end_block && b < s.num_blocks() && !#[trigger] writable(s, p, b) && (
                s.blocks.states[b] == 1 || !p.flushing)
        },
        PromoteAction::WriteActive { .. } => false,
    }
}

proof fn lemma_goes_on(
    s: CacheState,
    p: Promotion,
    from: int,
    t: CacheState,
    q: Promotion,
    action: PromoteAction,
)
    requires
        0 <= from,
        s.bs() > 0,
        s.num_blocks() == ceil_div(s.ds(), s.bs()),
        s.num_blocks() <= u32::MAX,
        scan_outcome(s, p, from, t, q, action),
    ensures
        goes_on(s, p, from, t, q, action),
{
    let stop = promote_stop(s, p, from);
    lemma_stop(s, p, from);
    assert forall|b: int| 0 <= b implies #[trigger] writable(s, p, b) == (promote_check(
        s,
        p,
        b,
    ) is Pass) by {}
    if stop <= p.end_block {
        assert(!writable(s, p, stop));
        if stop < s.num_blocks() {
            lemma_block_on_device(stop, s.bs(), s.ds());
        }
        assert forall|c: int| from <= c < stop implies #[trigger] writable(s, p, c) by {
            assert(promote_check(s, p, c) is Pass);
        }
    } else {
        assert forall|b: int| from <= b <= p.end_block implies #[trigger] writable(s, p, b) by {
            assert(promote_check(s, p, b) is Pass);
        }
    }
}

/// A promotion looks at its range block by block, from the one at hand on.
pub proof fn law_promotion_goes_block_by_block(
    inner: &mut CacheInner,
    p: &mut Promotion,
    action: PromoteAction,
)
    requires
        call_ensures(CacheInner::promote_next, (inner, p), action),
        mut_ref_current(inner).wf(),
    ensures
        goes_on(
            mut_ref_current(inner)@,
            mut_ref_current(p),
            mut_ref_current(p).block as int,
            mut_ref_future(inner)@,
            mut_ref_future(p),
            action,
        ),
{
    lemma_goes_on(
        mut_ref_current(inner)@,
        mut_ref_current(p),
        mut_ref_current(p).block as int,
        mut_ref_future(inner)@,
        mut_ref_future(p),
        action,
    );
}

/// What was read for a block is written to the active file, at the same place. Only zeros that
/// were read for an absent block are not: its claim is given up, and a caller that needs the
/// data fails; any other goes on with the next block.
pub proof fn law_stale_zeros_are_not_copied(
    inner: &mut CacheInner,
    p: &mut Promotion,
    bytes: &[u8],
    action: PromoteAction,
)
    requires
        call_ensures(CacheInner::promote_read, (inner, p, bytes), action),
        mut_ref_current(inner).wf(),
        mut_ref_current(p).wf(mut_ref_current(inner)@),
        mut_ref_current(p).phase is Reading,
    ensures
        ({
            let s = mut_ref_current(inner)@;
            let t = mut_ref_future(inner)@;
            let before = mut_ref_current(p);
            let after = mut_ref_future(p);
            let seen = before.phase->Reading_seen;
            let stale = seen == 0 && forall|i: int|
                0 <= i < bytes@.len() ==> #[trigger] bytes@[i] == 0;
            let freed = CacheState { claims: s.claims.remove(before.block as usize), ..s };
            &&& t.blocks == s.blocks
            &&& action is WriteActive <==> !stale
            &&& !stale ==> t == s && after.block == before.block && after.phase == (
            PromotePhase::Writing { seen })
            &&& action matches PromoteAction::WriteActive { offset, len } ==> {
                &&& offset == before.block * s.config.block_size
                &&& 0 < len <= s.config.block_size
                &&& offset + len == s.config.device_size || (len == s.config.block_size && offset
                    + len <= s.config.device_size)
            }
            &&& stale && before.require_promotion ==> action is Failed && t == freed
                && after.phase is Finished
            &&& stale && !before.require_promotion ==> goes_on(
                freed,
                before,
                before.block + 1,
                t,
                after,
                action,
            )
        }),
{
    let s = mut_ref_current(inner)@;
    let before = mut_ref_current(p);
    lemma_block_on_device(before.block as int, s.bs(), s.ds());
    if before.phase->Reading_seen == 0 && all_zero(bytes@) && !before.require_promotion {
        let freed = released(s, before);
        lemma_goes_on(
            freed,
            before.next(),
            before.block + 1,
            mut_ref_future(inner)@,
            mut_ref_future(p),
            action,
        );
        lemma_same_range(
            freed,
            before.next(),
            before,
            before.block + 1,
            mut_ref_future(inner)@,
            mut_ref_future(p),
            action,
        );
    }
}

/// What is done depends on the range and the kind of a promotion, not on where it stands.
proof fn lemma_same_range(
    s: CacheState,
    p: Promotion,
    other: Promotion,
    from: int,
    t: CacheState,
    q: Promotion,
    action: PromoteAction,
)
    requires
        goes_on(s, p, from, t, q, action),
        p.end_block == other.end_block,
        p.require_promotion == other.require_promotion,
        p.flushing == other.flushing,
    ensures
        goes_on(s, other, from, t, q, action),
{
    assert forall|b: int| #[trigger] writable(s, p, b) == writable(s, other, b) by {}
    assert forall|b: int| #[trigger] writable(s, other, b) == writable(s, p, b) by {}
}

/// Once a block was copied it is dirty, if it still is in the state in which the copy found it,
/// and is left alone else; its claim is free, and no other block changes. Then the promotion
/// goes on with the next block.
pub proof fn law_copied_block_is_dirty(
    inner: &mut CacheInner,
    p: &mut Promotion,
    action: PromoteAction,
)
    requires
        call_ensures(CacheInner::promote_written, (inner, p), action),
        mut_ref_current(inner).wf(),
        mut_ref_current(p).wf(mut_ref_current(inner)@),
        mut_ref_current(p).phase is Writing,
    ensures
        ({
            let s = mut_ref_current(inner)@;
            let t = mut_ref_future(inner)@;
            let before = mut_ref_current(p);
            let b = before.block as int;
            let seen = before.phase->Writing_seen;
            let copied = CacheState {
                blocks: t.blocks,
                claims: s.claims.remove(before.block as usize),
                ..s
            };
            &&& t.num_blocks() == s.num_blocks()
            &&& forall|c: int|
                0 <= c < s.num_blocks() && c != b ==> #[trigger] t.blocks.states[c]
                    == s.blocks.states[c]
            &&& s.blocks.states[b] == seen ==> t.blocks.states[b] == 2
            &&& s.blocks.states[b] != seen ==> t.blocks == s.blocks
            &&& s.blocks.counted() && (seen == 0 || seen == 3) ==> t.blocks.counted()
            &&& goes_on(copied, before, b + 1, t, mut_ref_future(p), action)
        }),
{
    let s = mut_ref_current(inner)@;
    let before = mut_ref_current(p);
    let mid = CacheState {
        blocks: promoted(s.blocks, before.block as int, before.seen()),
        ..released(s, before)
    };
    lemma_goes_on(
        mid,
        before.next(),
        before.block + 1,
        mut_ref_future(inner)@,
        mut_ref_future(p),
        action,
    );
    lemma_same_range(
        mid,
        before.next(),
        before,
        before.block + 1,
        mut_ref_future(inner)@,
        mut_ref_future(p),
        action,
    );
    if s.blocks.counted() {
        law_counters_follow_states(s.blocks, before.block as int);
    }
}

/// A copy that failed frees the block, and ends the promotion; nothing else changes.
pub proof fn law_failed_copy_frees_block(inner: &mut CacheInner, p: &mut Promotion)
    requires
        call_ensures(CacheInner::promote_failed, (inner, p), ()),
    ensures
        mut_ref_future(inner)@.blocks == mut_ref_current(inner)@.blocks,
        mut_ref_future(inner)@.claims == mut_ref_current(inner)@.claims.remove(
            mut_ref_current(p).block as usize,
        ),
        mut_ref_future(p).phase is Finished,
{
}

/// A promotion whose wait was in vain fails if the data of the block is needed, and goes on
/// with the next block if it is not.
pub proof fn law_waiting_in_vain(inner: &mut CacheInner, p: &mut Promotion, action: PromoteAction)
    requires
        call_ensures(CacheInner::promote_timed_out, (inner, p), action),
        mut_ref_current(inner).wf(),
    ensures
        mut_ref_current(p).require_promotion ==> action is Failed && mut_ref_future(p).phase is Finished
            && mut_ref_future(inner)@ == mut_ref_current(inner)@,
        !mut_ref_current(p).require_promotion ==> goes_on(
            mut_ref_current(inner)@,
            mut_ref_current(p),
            mut_ref_current(p).block + 1,
            mut_ref_future(inner)@,
            mut_ref_future(p),
            action,
        ),
{
    let s = mut_ref_current(inner)@;
    let before = mut_ref_current(p);
    if !before.require_promotion {
        lemma_goes_on(
            s,
            before.next(),
            before.block + 1,
            mut_ref_future(inner)@,
            mut_ref_future(p),
            action,
        );
        lemma_same_range(
            s,
            before.next(),
            before,
            before.block + 1,
            mut_ref_future(inner)@,
            mut_ref_future(p),
            action,
        );
    }
}

/// A promotion starts with the first block of its range, and has a flushing file exactly if one
/// is open.
pub proof fn law_promotion_starts(
    inner: CacheInner,
    start_block: u64,
    end_block: u64,
    require_promotion: bool,
    p: Promotion,
)
    requires
        call_ensures(Promotion::new, (&inner, start_block, end_block, require_promotion), p),
    ensures
        p.block == start_block && p.end_block == end_block,
        p.require_promotion == require_promotion,
        p.flushing == inner.flushing_open,
        p.phase is Checking,
{
}

} // verus!
