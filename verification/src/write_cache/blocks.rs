//! Block states together with the counters that the flush scheduler reads.

use vstd::prelude::*;
use crate::write_cache::state_map::{
    count_state, lemma_count_bounds, lemma_count_update, swapped, DirtyTransition,
    SparseBlockState, SparseStateMap,
};

verus! {

/// The state of every block, with the dirty and syncing counters.
pub struct BlockTable {
    pub map: SparseStateMap,
    pub dirty_block_count: u64,
    pub syncing_block_count: u64,
}

/// What a `BlockTable` holds.
pub struct Blocks {
    pub states: Seq<u8>,
    pub dirty: u64,
    pub syncing: u64,
}

/// `x + 1`, wrapping around at the end of the range.
pub open spec fn wrap_inc(x: u64) -> u64 {
    if x == u64::MAX {
        0
    } else {
        (x + 1) as u64
    }
}

/// `x - 1`, wrapping around at zero.
pub open spec fn wrap_dec(x: u64) -> u64 {
    if x == 0 {
        u64::MAX
    } else {
        (x - 1) as u64
    }
}

impl Blocks {
    /// Both counters say how many blocks are in the state that they count.
    pub open spec fn counted(self) -> bool {
        &&& self.dirty == count_state(self.states, SparseBlockState::DIRTY)
        &&& self.syncing == count_state(self.states, SparseBlockState::SYNCING)
    }

    /// Whether `idx` is a block of the device.
    pub open spec fn has(self, idx: int) -> bool {
        0 <= idx < self.states.len()
    }

    /// Block `idx` claimed if it was not present.
    pub open spec fn marked_present(self, idx: int) -> Blocks {
        if self.has(idx) {
            Blocks {
                states: swapped(
                    self.states,
                    idx,
                    SparseBlockState::NOT_PRESENT,
                    SparseBlockState::CLEAN,
                ),
                ..self
            }
        } else {
            self
        }
    }

    /// Block `idx` made dirty.
    pub open spec fn made_dirty(self, idx: int) -> Blocks {
        Blocks {
            states: self.states.update(idx, SparseBlockState::DIRTY),
            dirty: if self.states[idx] == SparseBlockState::DIRTY {
                self.dirty
            } else {
                wrap_inc(self.dirty)
            },
            syncing: if self.states[idx] == SparseBlockState::SYNCING {
                wrap_dec(self.syncing)
            } else {
                self.syncing
            },
        }
    }

    /// Block `idx` claimed by a flush if it was dirty.
    pub open spec fn claimed(self, idx: int) -> Blocks {
        if self.states[idx] == SparseBlockState::DIRTY {
            Blocks {
                states: self.states.update(idx, SparseBlockState::SYNCING),
                dirty: wrap_dec(self.dirty),
                syncing: wrap_inc(self.syncing),
            }
        } else {
            self
        }
    }

    /// Block `idx` evicted if it was syncing.
    pub open spec fn evicted(self, idx: int) -> Blocks {
        if self.states[idx] == SparseBlockState::SYNCING {
            Blocks {
                states: self.states.update(idx, SparseBlockState::NOT_PRESENT),
                syncing: wrap_dec(self.syncing),
                ..self
            }
        } else {
            self
        }
    }

    /// The blocks made dirty one after the other.
    pub open spec fn made_dirty_all(self, idxs: Seq<usize>) -> Blocks
        decreases idxs.len(),
    {
        if idxs.len() == 0 {
            self
        } else {
            self.made_dirty_all(idxs.drop_last()).made_dirty(idxs.last() as int)
        }
    }

    /// Blocks `from` up to but not including `to` claimed where they were not
    /// present.
    pub open spec fn marked_present_range(self, from: int, to: int) -> Blocks
        decreases to - from,
    {
        if to <= from {
            self
        } else {
            self.marked_present_range(from, to - 1).marked_present(to - 1)
        }
    }
}

/// Every operation on a block keeps the counters in step with the states.
pub proof fn law_counters_follow_states(blocks: Blocks, idx: int)
    requires
        blocks.counted(),
        blocks.has(idx),
        blocks.states.len() <= u64::MAX,
    ensures
        blocks.marked_present(idx).counted(),
        blocks.made_dirty(idx).counted(),
        blocks.claimed(idx).counted(),
        blocks.evicted(idx).counted(),
{
    let states = blocks.states;
    lemma_count_bounds(states, SparseBlockState::DIRTY);
    lemma_count_bounds(states, SparseBlockState::SYNCING);
    assert(states[idx] == SparseBlockState::DIRTY ==> states.contains(SparseBlockState::DIRTY));
    assert(states[idx] == SparseBlockState::SYNCING ==> states.contains(
        SparseBlockState::SYNCING,
    ));
    let d = SparseBlockState::DIRTY;
    let s = SparseBlockState::SYNCING;
    lemma_count_update(states, idx, SparseBlockState::CLEAN, d);
    lemma_count_update(states, idx, SparseBlockState::CLEAN, s);
    lemma_count_update(states, idx, SparseBlockState::NOT_PRESENT, d);
    lemma_count_update(states, idx, SparseBlockState::NOT_PRESENT, s);
    lemma_count_update(states, idx, d, d);
    lemma_count_update(states, idx, d, s);
    lemma_count_update(states, idx, s, d);
    lemma_count_update(states, idx, s, s);
    lemma_count_bounds(blocks.made_dirty(idx).states, d);
    lemma_count_bounds(blocks.claimed(idx).states, s);
}

impl View for BlockTable {
    type V = Blocks;

    open spec fn view(&self) -> Blocks {
        Blocks {
            states: self.map@,
            dirty: self.dirty_block_count,
            syncing: self.syncing_block_count,
        }
    }
}

impl BlockTable {
    pub open spec fn wf(&self) -> bool {
        self.map.wf()
    }

    /// A table of `num_blocks` blocks, none of them present.
    pub fn new(num_blocks: usize) -> (table: BlockTable)
        ensures
            table.wf(),
            table@.states == Seq::new(num_blocks as nat, |i: int| SparseBlockState::NOT_PRESENT),
            table@.dirty == 0,
            table@.syncing == 0,
    {
        BlockTable {
            map: SparseStateMap::new(num_blocks),
            dirty_block_count: 0,
            syncing_block_count: 0,
        }
    }

    /// Number of blocks of the device.
    pub fn num_blocks(&self) -> (n: usize)
        ensures
            n == self@.states.len(),
    {
        self.map.len()
    }

    /// The state of block `idx`.
    pub fn get(&self, idx: usize) -> (state: u8)
        requires
            self.wf(),
            self@.has(idx as int),
        ensures
            state == self@.states[idx as int],
    {
        self.map.get(idx)
    }

    /// Check if block is present.
    pub fn is_present(&self, block_num: usize) -> (present: bool)
        requires
            self.wf(),
        ensures
            present == (self@.has(block_num as int) && self@.states[block_num as int]
                != SparseBlockState::NOT_PRESENT),
    {
        if block_num >= self.map.len() {
            return false;
        }
        self.map.is_present(block_num)
    }

    /// Mark block as present (NOT_PRESENT -> CLEAN). A block beyond the device
    /// is ignored.
    pub fn set_present(&mut self, block_num: usize)
        requires
            old(self).wf(),
        ensures
            final(self).wf(),
            final(self)@ == old(self)@.marked_present(block_num as int),
    {
        if block_num >= self.map.len() {
            return ;
        }
        self.map.set_present(block_num);
    }

    /// Try to claim a NOT_PRESENT block (NOT_PRESENT -> CLEAN).
    /// Returns true if this call won the transition.
    pub fn try_set_present(&mut self, block_num: usize) -> (won: bool)
        requires
            old(self).wf(),
        ensures
            final(self).wf(),
            final(self)@ == old(self)@.marked_present(block_num as int),
            won == (old(self)@.has(block_num as int) && old(self)@.states[block_num as int]
                == SparseBlockState::NOT_PRESENT),
    {
        if block_num >= self.map.len() {
            return false;
        }
        self.map.try_set_present(block_num)
    }

    /// Transition a block to Dirty, with the counters.
    ///
    /// Returns `true` if the state actually changed, `false` if already DIRTY.
    pub fn transition_to_dirty(&mut self, idx: usize) -> (changed: bool)
        requires
            old(self).wf(),
            old(self)@.has(idx as int),
        ensures
            final(self).wf(),
            final(self)@ == old(self)@.made_dirty(idx as int),
            changed == (old(self)@.states[idx as int] != SparseBlockState::DIRTY),
    {
        match self.map.transition_to_dirty(idx) {
            DirtyTransition::AlreadyDirty => false,
            DirtyTransition::FromCleanOrNotPresent => {
                self.dirty_block_count = self.dirty_block_count.wrapping_add(1);
                true
            },
            DirtyTransition::FromSyncing => {
                self.syncing_block_count = self.syncing_block_count.wrapping_sub(1);
                self.dirty_block_count = self.dirty_block_count.wrapping_add(1);
                true
            },
        }
    }

    /// Claim a dirty block for flushing: DIRTY -> SYNCING.
    ///
    /// Returns false if the block is not DIRTY (already claimed or cleaned).
    pub fn transition_dirty_to_syncing(&mut self, idx: usize) -> (claimed: bool)
        requires
            old(self).wf(),
            old(self)@.has(idx as int),
        ensures
            final(self).wf(),
            final(self)@ == old(self)@.claimed(idx as int),
            claimed == (old(self)@.states[idx as int] == SparseBlockState::DIRTY),
    {
        if self.map.transition_dirty_to_syncing(idx) {
            self.dirty_block_count = self.dirty_block_count.wrapping_sub(1);
            self.syncing_block_count = self.syncing_block_count.wrapping_add(1);
            true
        } else {
            false
        }
    }

    /// Evict a flushed block: SYNCING -> NOT_PRESENT.
    ///
    /// After a successful upload the block data lives in object storage; the
    /// local copy is no longer needed. Returns false if a write made the block
    /// dirty in the meantime.
    pub fn transition_syncing_to_not_present(&mut self, idx: usize) -> (evicted: bool)
        requires
            old(self).wf(),
            old(self)@.has(idx as int),
        ensures
            final(self).wf(),
            final(self)@ == old(self)@.evicted(idx as int),
            evicted == (old(self)@.states[idx as int] == SparseBlockState::SYNCING),
    {
        if self.map.transition_syncing_to_not_present(idx) {
            self.syncing_block_count = self.syncing_block_count.wrapping_sub(1);
            true
        } else {
            false
        }
    }

    /// True iff any block is currently SYNCING.
    pub fn has_any_syncing(&self) -> (any: bool)
        requires
            self.wf(),
        ensures
            any == self@.states.contains(SparseBlockState::SYNCING),
    {
        let n: usize = self.map.len();
        let mut i: usize = 0;
        while i < n
            invariant
                self.wf(),
                n == self@.states.len(),
                i <= n,
                forall|j: int| 0 <= j < i ==> self@.states[j] != SparseBlockState::SYNCING,
            decreases n - i,
        {
            if self.map.get(i) == SparseBlockState::SYNCING {
                assert(self@.states[i as int] == SparseBlockState::SYNCING);
                return true;
            }
            i = i + 1;
        }
        false
    }
}

/// What each operation does to the state of the block that it names and to the counters,
/// and that it leaves every other block alone. The states are 0 for absent, 1 for clean, 2
/// for dirty and 3 for claimed by a flush.
pub proof fn law_operations_change_one_block(blocks: Blocks, idx: int, j: int)
    requires
        blocks.has(idx),
        0 < blocks.dirty < u64::MAX,
        0 < blocks.syncing < u64::MAX,
    ensures
        blocks.has(j) && j != idx ==> {
            &&& blocks.marked_present(idx).states[j] == blocks.states[j]
            &&& blocks.made_dirty(idx).states[j] == blocks.states[j]
            &&& blocks.claimed(idx).states[j] == blocks.states[j]
            &&& blocks.evicted(idx).states[j] == blocks.states[j]
        },
        blocks.marked_present(idx).states[idx] == if blocks.states[idx] == 0 {
            1
        } else {
            blocks.states[idx]
        },
        blocks.marked_present(idx).dirty == blocks.dirty,
        blocks.marked_present(idx).syncing == blocks.syncing,
        blocks.made_dirty(idx).states[idx] == 2,
        blocks.states[idx] == 2 ==> blocks.made_dirty(idx) == blocks,
        blocks.states[idx] == 3 ==> blocks.made_dirty(idx).dirty == blocks.dirty + 1
            && blocks.made_dirty(idx).syncing == blocks.syncing - 1,
        blocks.states[idx] != 2 && blocks.states[idx] != 3 ==> blocks.made_dirty(idx).dirty
            == blocks.dirty + 1 && blocks.made_dirty(idx).syncing == blocks.syncing,
        blocks.states[idx] == 2 ==> blocks.claimed(idx).states[idx] == 3 && blocks.claimed(
            idx,
        ).dirty == blocks.dirty - 1 && blocks.claimed(idx).syncing == blocks.syncing + 1,
        blocks.states[idx] != 2 ==> blocks.claimed(idx) == blocks,
        blocks.states[idx] == 3 ==> blocks.evicted(idx).states[idx] == 0 && blocks.evicted(
            idx,
        ).dirty == blocks.dirty && blocks.evicted(idx).syncing == blocks.syncing - 1,
        blocks.states[idx] != 3 ==> blocks.evicted(idx) == blocks,
{
    assert(blocks.states[idx] == 2 ==> blocks.made_dirty(idx).states =~= blocks.states);
}

/// After several blocks were made dirty, exactly these are dirty that were named or were
/// dirty before; the others are as they were.
pub proof fn law_named_blocks_are_dirty(blocks: Blocks, idxs: Seq<usize>)
    requires
        forall|k: int| 0 <= k < idxs.len() ==> blocks.has(#[trigger] idxs[k] as int),
    ensures
        blocks.made_dirty_all(idxs).states.len() == blocks.states.len(),
        forall|j: int|
            blocks.has(j) ==> #[trigger] blocks.made_dirty_all(idxs).states[j] == if exists|k: int|
                0 <= k < idxs.len() && #[trigger] idxs[k] == j {
                2
            } else {
                blocks.states[j]
            },
    decreases idxs.len(),
{
    if idxs.len() > 0 {
        let rest = idxs.drop_last();
        let last = idxs.last() as int;
        assert forall|k: int| 0 <= k < rest.len() implies blocks.has(#[trigger] rest[k] as int) by {
            assert(rest[k] == idxs[k]);
        }
        law_named_blocks_are_dirty(blocks, rest);
        assert(blocks.has(idxs[idxs.len() - 1] as int));
        assert forall|j: int| blocks.has(j) implies #[trigger] blocks.made_dirty_all(
            idxs,
        ).states[j] == if exists|k: int| 0 <= k < idxs.len() && #[trigger] idxs[k] == j {
            2
        } else {
            blocks.states[j]
        } by {
            let before = blocks.made_dirty_all(rest).states[j];
            if exists|k: int| 0 <= k < rest.len() && #[trigger] rest[k] == j {
                let k = choose|k: int| 0 <= k < rest.len() && #[trigger] rest[k] == j;
                assert(idxs[k] == j);
            }
            if exists|k: int| 0 <= k < idxs.len() && #[trigger] idxs[k] == j {
                let k = choose|k: int| 0 <= k < idxs.len() && #[trigger] idxs[k] == j;
                if k < rest.len() {
                    assert(rest[k] == j);
                }
            }
            assert(idxs[idxs.len() - 1] == last);
        }
    }
}

/// After a range of blocks was marked present, none of it is absent: an absent block is
/// clean, and every other block, inside and outside the range, is as it was.
pub proof fn law_range_is_present(blocks: Blocks, from: int, to: int)
    requires
        0 <= from <= to <= blocks.states.len(),
    ensures
        blocks.marked_present_range(from, to).states.len() == blocks.states.len(),
        blocks.marked_present_range(from, to).dirty == blocks.dirty,
        blocks.marked_present_range(from, to).syncing == blocks.syncing,
        forall|j: int|
            blocks.has(j) ==> #[trigger] blocks.marked_present_range(from, to).states[j] == if from
                <= j < to && blocks.states[j] == 0 {
                1
            } else {
                blocks.states[j]
            },
    decreases to - from,
{
    if from < to {
        law_range_is_present(blocks, from, to - 1);
        let before = blocks.marked_present_range(from, to - 1);
        assert(before.states[to - 1] == blocks.states[to - 1]);
    }
}

/// The operations on a table do what is said of its blocks, and tell whether they changed
/// anything. A block beyond the device is not present, cannot be claimed and is passed over.
pub proof fn law_table_operations(
    shown: &mut BlockTable,
    won: bool,
    dirtied: &mut BlockTable,
    changed: bool,
    flushed: &mut BlockTable,
    claimed: bool,
    dropped: &mut BlockTable,
    evicted: bool,
    idx: usize,
)
    requires
        call_ensures(BlockTable::try_set_present, (shown, idx), won),
        call_ensures(BlockTable::transition_to_dirty, (dirtied, idx), changed),
        call_ensures(BlockTable::transition_dirty_to_syncing, (flushed, idx), claimed),
        call_ensures(BlockTable::transition_syncing_to_not_present, (dropped, idx), evicted),
        idx < mut_ref_current(dirtied)@.states.len(),
        idx < mut_ref_current(flushed)@.states.len(),
        idx < mut_ref_current(dropped)@.states.len(),
    ensures
        idx >= mut_ref_current(shown)@.states.len() ==> !won && mut_ref_future(shown)@
            == mut_ref_current(shown)@,
        idx < mut_ref_current(shown)@.states.len() ==> {
            &&& won <==> mut_ref_current(shown)@.states[idx as int] == 0
            &&& mut_ref_future(shown)@.states[idx as int] != 0
            &&& won ==> mut_ref_future(shown)@.states[idx as int] == 1
            &&& !won ==> mut_ref_future(shown)@ == mut_ref_current(shown)@
        },
        changed <==> mut_ref_current(dirtied)@.states[idx as int] != 2,
        mut_ref_future(dirtied)@.states[idx as int] == 2,
        claimed <==> mut_ref_current(flushed)@.states[idx as int] == 2,
        claimed <==> mut_ref_future(flushed)@.states[idx as int]
            != mut_ref_current(flushed)@.states[idx as int],
        evicted <==> mut_ref_current(dropped)@.states[idx as int] == 3,
        evicted ==> mut_ref_future(dropped)@.states[idx as int] == 0,
{
}

/// What is told of a block: its state, whether it is present, and whether any is claimed by a
/// flush. A block beyond the device is not present.
pub proof fn law_table_is_told(
    table: BlockTable,
    idx: usize,
    state: u8,
    present: bool,
    any: bool,
    n: usize,
    fresh: BlockTable,
)
    requires
        call_ensures(BlockTable::get, (&table, idx), state),
        call_ensures(BlockTable::is_present, (&table, idx), present),
        call_ensures(BlockTable::has_any_syncing, (&table,), any),
        call_ensures(BlockTable::num_blocks, (&table,), n),
        call_ensures(BlockTable::new, (n,), fresh),
    ensures
        n == table@.states.len(),
        idx < n ==> state == table@.states[idx as int],
        present <==> idx < n && table@.states[idx as int] != 0,
        any <==> exists|i: int| 0 <= i < n && #[trigger] table@.states[i] == 3,
        fresh@.states.len() == n && fresh@.dirty == 0 && fresh@.syncing == 0,
        forall|i: int| 0 <= i < n ==> #[trigger] fresh@.states[i] == 0,
{
    if any {
        let i = choose|i: int|
            0 <= i < table@.states.len() && table@.states[i] == SparseBlockState::SYNCING;
        assert(table@.states[i] == 3);
    }
}

/// Counters that run over start anew: they are right again once as many blocks have gone the
/// other way.
pub proof fn law_counters_wrap(x: u64)
    ensures
        wrap_dec(wrap_inc(x)) == x,
        wrap_inc(wrap_dec(x)) == x,
        x < u64::MAX ==> wrap_inc(x) == x + 1,
{
}

} // verus!
