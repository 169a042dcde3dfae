//! Rotation of the data file, and what a flush makes of the blocks it claimed.

use vstd::prelude::*;
use crate::write_cache::blocks::{law_counters_follow_states, Blocks};
use crate::write_cache::error::{CacheError, IoError};
use crate::write_cache::geometry::{
    block_start, lemma_block_on_device, valid_bytes, valid_len,
};
use crate::write_cache::init::BlockCopy;
use crate::write_cache::inner::{CacheInner, CacheState, HandoffPhase, SafetyNet};
use crate::write_cache::lifecycle::checkpoint_saved;
use crate::write_cache::state_map::SparseBlockState;
use crate::write_cache::write::lemma_made_dirty_all;
use crate::write_cache::{Active, FlushStats, WriteCache};

verus! {

/// How a flush cycle starts.
#[derive(Clone, Copy, Debug, PartialEq, Eq, Structural)]
pub enum FlushStart {
    /// A flush must not run now.
    Skip,
    /// A flushing file is left over from a failed cleanup: remove it, and rotate
    /// if that succeeds.
    RemoveOrphan,
    /// Rotate the data file.
    Rotate,
}

/// What the file operations of a rotation came to: the active file is renamed to
/// the flushing file, and a new active file is created.
pub enum RotationFiles {
    /// Both succeeded.
    Swapped,
    /// The active file could not be renamed.
    RenameFailed(IoError),
    /// The new active file could not be created. `undo` is the error of renaming
    /// the old one back, if that failed too.
    OpenFailed { error: IoError, undo: Option<IoError> },
}

/// The dirty blocks among the first `n`, in ascending order.
pub open spec fn dirty_blocks(states: Seq<u8>, n: nat) -> Seq<usize>
    decreases n,
{
    if n == 0 {
        Seq::empty()
    } else {
        let before = dirty_blocks(states, (n - 1) as nat);
        if states[n - 1] == SparseBlockState::DIRTY {
            before.push((n - 1) as usize)
        } else {
            before
        }
    }
}

impl Blocks {
    /// The first `n` blocks claimed by a flush where they were dirty.
    pub open spec fn claimed_upto(self, n: nat) -> Blocks
        decreases n,
    {
        if n == 0 {
            self
        } else {
            self.claimed_upto((n - 1) as nat).claimed(n - 1)
        }
    }

    /// The blocks of a list evicted where they were syncing.
    pub open spec fn evicted_all(self, list: Seq<usize>) -> Blocks
        decreases list.len(),
    {
        if list.len() == 0 {
            self
        } else {
            self.evicted_all(list.drop_last()).evicted(list.last() as int)
        }
    }
}

/// The state with the marks of an active rotation.
pub open spec fn rotation_marked(s: CacheState) -> CacheState {
    CacheState { rotation_seq: s.sequence, flushing_active: true, ..s }
}

/// The state without the marks of a rotation.
pub open spec fn rotation_cleared(s: CacheState) -> CacheState {
    CacheState { rotation_seq: 0, flushing_active: false, ..s }
}

/// The state after a flush gave its flushing file up.
pub open spec fn flush_ended(s: CacheState) -> CacheState {
    CacheState { flushing_open: false, ..rotation_cleared(s) }
}

/// How a flush cycle starts.
pub open spec fn start_of(s: CacheState, on_disk: bool) -> FlushStart {
    if s.handoff_phase != HandoffPhase::Idle {
        FlushStart::Skip
    } else if !on_disk {
        FlushStart::Rotate
    } else if !s.flushing_active && !s.flushing_open && s.safety_net == SafetyNet::NotNeeded {
        FlushStart::RemoveOrphan
    } else {
        FlushStart::Skip
    }
}

/// The state after a flush has evicted its blocks. If it has appended packs, its file
/// is needed until the manifest that lists them is synced.
pub open spec fn flush_finished(s: CacheState, flushed: Seq<usize>, packs: bool) -> CacheState {
    CacheState {
        blocks: s.blocks.evicted_all(flushed),
        safety_net: if packs {
            SafetyNet::UntilSynced
        } else {
            s.safety_net
        },
        ..flush_ended(s)
    }
}

/// The file of a finished flush stays on disk until the manifest that lists its packs is
/// synced and the states of the blocks are saved: no cycle before that rotates or
/// removes anything.
pub proof fn law_unsynced_flush_keeps_its_file(s: CacheState, flushed: Seq<usize>)
    ensures
        ({
            let finished = flush_finished(s, flushed, true);
            let synced = CacheState { safety_net: finished.safety_net.spec_synced(), ..finished };
            let settled = checkpoint_saved(synced, true);
            &&& start_of(finished, true) == FlushStart::Skip
            &&& forall|settles: bool| #[trigger]
                start_of(checkpoint_saved(finished, settles), true) == FlushStart::Skip
            &&& start_of(synced, true) == FlushStart::Skip
            &&& start_of(checkpoint_saved(synced, false), true) == FlushStart::Skip
            &&& s.handoff_phase == HandoffPhase::Idle ==> start_of(settled, true)
                == FlushStart::RemoveOrphan
        }),
{
}

/// Whether every listed index is a block of the device.
pub open spec fn on_device(s: CacheState, list: Seq<usize>) -> bool {
    forall|k: int| 0 <= k < list.len() ==> #[trigger] list[k] < s.num_blocks()
}

/// The copy that brings the data of a block back from the flushing file.
pub open spec fn block_copy(s: CacheState, block: int) -> BlockCopy {
    BlockCopy {
        offset: block_start(block, s.bs()) as u64,
        len: valid_len(block, s.bs(), s.ds()) as usize,
    }
}

/// Whether the data of a block that a flush has claimed lies in the flushing file
/// alone.
pub open spec fn needs_copy(s: CacheState, block: int) -> bool {
    s.state(block) == SparseBlockState::SYNCING && s.flushing_open
}

/// The blocks of a list that `keep` says yes to, given the index in the list.
pub open spec fn picked(list: Seq<usize>, keep: spec_fn(int) -> bool, n: nat) -> Seq<usize>
    decreases n,
{
    if n == 0 {
        Seq::empty()
    } else {
        let before = picked(list, keep, (n - 1) as nat);
        if keep(n - 1) {
            before.push(list[n - 1])
        } else {
            before
        }
    }
}

/// Whether, after a failed flush, the active file has the data of the `k`th
/// block: a write has put it there, or it was copied back.
pub open spec fn recovered_at(s: CacheState, snapshot: Seq<usize>, copied: Seq<bool>, k: int) -> bool {
    s.state(snapshot[k] as int) != SparseBlockState::SYNCING || (s.flushing_open && copied[k])
}

/// The blocks after a failed flush: those with their data back are dirty, and the
/// others, whose data is lost, are not present.
pub open spec fn failed_flush_blocks(
    s: CacheState,
    snapshot: Seq<usize>,
    copied: Seq<bool>,
) -> Blocks {
    s.blocks.evicted_all(
        picked(snapshot, |k: int| !recovered_at(s, snapshot, copied, k), snapshot.len()),
    ).made_dirty_all(
        picked(snapshot, |k: int| recovered_at(s, snapshot, copied, k), snapshot.len()),
    )
}

/// The blocks after the skipped blocks of a flush were made dirty again. A block
/// whose data could not be copied back stays as it is.
pub open spec fn skipped_blocks(s: CacheState, skipped: Seq<usize>, copied: Seq<bool>) -> Blocks {
    s.blocks.made_dirty_all(
        picked(
            skipped,
            |k: int| !needs_copy(s, skipped[k] as int) || copied[k],
            skipped.len(),
        ),
    )
}

proof fn lemma_picked_on_device(s: CacheState, list: Seq<usize>, keep: spec_fn(int) -> bool, n: nat)
    requires
        on_device(s, list),
        n <= list.len(),
    ensures
        on_device(s, picked(list, keep, n)),
    decreases n,
{
    if n > 0 {
        lemma_picked_on_device(s, list, keep, (n - 1) as nat);
    }
}

impl CacheInner {
    /// The copies that bring the data of listed blocks back from the flushing
    /// file: one for each block whose data is there alone.
    pub fn copies_back(&self, list: &Vec<usize>) -> (copies: Vec<Option<BlockCopy>>)
        requires
            self.wf(),
            on_device(self@, list@),
        ensures
            copies@.len() == list@.len(),
            forall|k: int|
                0 <= k < list@.len() ==> #[trigger] copies@[k] == (if needs_copy(
                    self@,
                    list@[k] as int,
                ) {
                    Some(block_copy(self@, list@[k] as int))
                } else {
                    None
                }),
    {
        let mut copies: Vec<Option<BlockCopy>> = Vec::new();
        let mut k: usize = 0;
        while k < list.len()
            invariant
                self.wf(),
                on_device(self@, list@),
                k <= list@.len(),
                copies@.len() == k,
                forall|j: int|
                    0 <= j < k ==> #[trigger] copies@[j] == (if needs_copy(
                        self@,
                        list@[j] as int,
                    ) {
                        Some(block_copy(self@, list@[j] as int))
                    } else {
                        None
                    }),
            decreases list@.len() - k,
        {
            let idx: usize = list[k];
            assert(list@[k as int] < self@.num_blocks());
            if self.blocks.get(idx) == SparseBlockState::SYNCING && self.flushing_open {
                proof {
                    lemma_block_on_device(idx as int, self@.bs(), self@.ds());
                }
                copies.push(
                    Some(
                        BlockCopy {
                            offset: idx as u64 * self.config.block_size as u64,
                            len: valid_bytes(
                                idx as u64,
                                self.config.block_size,
                                self.config.device_size,
                            ),
                        },
                    ),
                );
            } else {
                copies.push(None);
            }
            k = k + 1;
        }
        copies
    }

    /// Makes the skipped blocks of a flush dirty again. `copied` says of each
    /// whether its data was copied back, where that was needed.
    pub fn finish_skipped(&mut self, skipped: &Vec<usize>, copied: &Vec<bool>)
        requires
            old(self).wf(),
            on_device(old(self)@, skipped@),
            copied@.len() == skipped@.len(),
            skipped@.no_duplicates(),
        ensures
            final(self).wf(),
            final(self)@ == (CacheState {
                blocks: skipped_blocks(old(self)@, skipped@, copied@),
                ..old(self)@
            }),
    {
        let ghost s0 = self@;
        let ghost keep = |k: int| !needs_copy(s0, skipped@[k] as int) || copied@[k];
        let mut k: usize = 0;
        while k < skipped.len()
            invariant
                self.wf(),
                on_device(s0, skipped@),
                copied@.len() == skipped@.len(),
                skipped@.no_duplicates(),
                k <= skipped@.len(),
                keep == (|k: int| !needs_copy(s0, skipped@[k] as int) || copied@[k]),
                self@ == (CacheState {
                    blocks: s0.blocks.made_dirty_all(picked(skipped@, keep, k as nat)),
                    ..s0
                }),
                self@.num_blocks() == s0.num_blocks(),
                forall|j: int|
                    k <= j < skipped@.len() ==> self@.state(#[trigger] skipped@[j] as int)
                        == s0.state(skipped@[j] as int),
            decreases skipped@.len() - k,
        {
            let idx: usize = skipped[k];
            assert(skipped@[k as int] < s0.num_blocks());
            let syncing: bool = self.blocks.get(idx) == SparseBlockState::SYNCING
                && self.flushing_open;
            if !syncing || copied[k] {
                let ghost before = picked(skipped@, keep, k as nat);
                let _ = self.blocks.transition_to_dirty(idx);
                assert(before.push(idx).drop_last() =~= before);
            }
            assert forall|j: int| k + 1 <= j < skipped@.len() implies self@.state(
                #[trigger] skipped@[j] as int,
            ) == s0.state(skipped@[j] as int) by {
                assert(skipped@[j] != skipped@[k as int]);
                assert(skipped@[j] < s0.num_blocks());
            }
            k = k + 1;
        }
    }
}

impl WriteCache<Active> {
    /// Decides how a flush cycle starts. `on_disk` says whether there is a
    /// flushing file.
    ///
    /// A flushing file whose manifest is not synced yet is the safety net of the
    /// blocks in it: rotating would overwrite it. One that nobody needs is left
    /// over from a cleanup that failed. During a handoff the files belong to two
    /// processes and nothing is rotated.
    pub fn flush_start(&self, on_disk: bool) -> (start: FlushStart)
        ensures
            start == start_of(self@, on_disk),
    {
        if self.inner.handoff_phase.is_active() {
            return FlushStart::Skip;
        }
        if on_disk {
            if !self.inner.flushing_active && !self.inner.flushing_open && self.inner.safety_net
                == SafetyNet::NotNeeded {
                FlushStart::RemoveOrphan
            } else {
                FlushStart::Skip
            }
        } else {
            FlushStart::Rotate
        }
    }

    /// Rotate the data file without claiming blocks. If the files could not be
    /// swapped, no rotation is active afterwards.
    pub fn rotate_data_file(&mut self, files: RotationFiles) -> (result: Result<(), CacheError>)
        requires
            old(self).wf(),
        ensures
            final(self).wf(),
            match files {
                RotationFiles::Swapped => result is Ok && final(self)@ == (CacheState {
                    flushing_open: true,
                    ..rotation_marked(old(self)@)
                }),
                RotationFiles::RenameFailed(e) => result == Err::<(), CacheError>(
                    CacheError::Io(e),
                ) && final(self)@ == rotation_cleared(old(self)@),
                RotationFiles::OpenFailed { error, undo } => result == Err::<(), CacheError>(
                    CacheError::Io(
                        match undo {
                            Some(u) => u,
                            None => error,
                        },
                    ),
                ) && final(self)@ == rotation_cleared(old(self)@),
            },
    {
        match self.rotate_data_file_inner(files, false) {
            Ok(_) => Ok(()),
            Err(e) => Err(e),
        }
    }

    /// Rotate the data file and claim every dirty block, in one step: a write
    /// that comes after it finds the block claimed and makes it dirty again.
    /// Returns the claimed blocks.
    pub fn rotate_and_snapshot(&mut self, files: RotationFiles) -> (result: Result<
        Vec<usize>,
        CacheError,
    >)
        requires
            old(self).wf(),
        ensures
            final(self).wf(),
            match files {
                RotationFiles::Swapped => result matches Ok(claimed) && claimed@ == dirty_blocks(
                    old(self)@.blocks.states,
                    old(self)@.blocks.states.len(),
                ) && final(self)@ == (CacheState {
                    blocks: old(self)@.blocks.claimed_upto(old(self)@.blocks.states.len()),
                    flushing_open: true,
                    ..rotation_marked(old(self)@)
                }),
                RotationFiles::RenameFailed(e) => result matches Err(err) && err == CacheError::Io(e)
                    && final(self)@ == rotation_cleared(old(self)@),
                RotationFiles::OpenFailed { error, undo } => result matches Err(err) && err
                    == CacheError::Io(
                    match undo {
                        Some(u) => u,
                        None => error,
                    },
                ) && final(self)@ == rotation_cleared(old(self)@),
            },
    {
        self.rotate_data_file_inner(files, true)
    }

    fn rotate_data_file_inner(&mut self, files: RotationFiles, snapshot: bool) -> (result: Result<
        Vec<usize>,
        CacheError,
    >)
        requires
            old(self).wf(),
        ensures
            final(self).wf(),
            match files {
                RotationFiles::Swapped => result matches Ok(claimed) && claimed@ == (if snapshot {
                    dirty_blocks(old(self)@.blocks.states, old(self)@.blocks.states.len())
                } else {
                    Seq::empty()
                }) && final(self)@ == (CacheState {
                    blocks: if snapshot {
                        old(self)@.blocks.claimed_upto(old(self)@.blocks.states.len())
                    } else {
                        old(self)@.blocks
                    },
                    flushing_open: true,
                    ..rotation_marked(old(self)@)
                }),
                RotationFiles::RenameFailed(e) => result matches Err(err) && err == CacheError::Io(e)
                    && final(self)@ == rotation_cleared(old(self)@),
                RotationFiles::OpenFailed { error, undo } => result matches Err(err) && err
                    == CacheError::Io(
                    match undo {
                        Some(u) => u,
                        None => error,
                    },
                ) && final(self)@ == rotation_cleared(old(self)@),
            },
    {
        let ghost s0 = self@;
        self.inner.rotation_seq = self.inner.sequence;
        self.inner.flushing_active = true;
        match files {
            RotationFiles::RenameFailed(e) => {
                self.inner.flushing_active = false;
                self.inner.rotation_seq = 0;
                return Err(CacheError::Io(e));
            },
            RotationFiles::OpenFailed { error, undo } => {
                self.inner.flushing_active = false;
                self.inner.rotation_seq = 0;
                return Err(
                    CacheError::Io(
                        match undo {
                            Some(u) => u,
                            None => error,
                        },
                    ),
                );
            },
            RotationFiles::Swapped => {},
        }
        let mut claimed: Vec<usize> = Vec::new();
        if snapshot {
            let n: usize = self.inner.blocks.num_blocks();
            let mut idx: usize = 0;
            while idx < n
                invariant
                    self.wf(),
                    n == s0.blocks.states.len(),
                    idx <= n,
                    self@ == (CacheState {
                        blocks: s0.blocks.claimed_upto(idx as nat),
                        ..rotation_marked(s0)
                    }),
                    self@.blocks.states.len() == n,
                    forall|j: int|
                        idx <= j < n ==> #[trigger] self@.blocks.states[j] == s0.blocks.states[j],
                    claimed@ == dirty_blocks(s0.blocks.states, idx as nat),
                decreases n - idx,
            {
                if self.inner.blocks.transition_dirty_to_syncing(idx) {
                    claimed.push(idx);
                }
                idx = idx + 1;
            }
        }
        self.inner.flushing_open = true;
        Ok(claimed)
    }

    /// Ends a flush that found no dirty block after its rotation.
    pub fn flush_empty(&mut self)
        requires
            old(self).wf(),
        ensures
            final(self).wf(),
            final(self)@ == flush_ended(old(self)@),
    {
        self.inner.flushing_active = false;
        self.inner.rotation_seq = 0;
        self.inner.flushing_open = false;
    }

    /// Ends a flush whose packs are all uploaded: evicts its blocks. A block that
    /// a write made dirty meanwhile stays dirty and is counted. If packs were
    /// appended, the flushing file stays on disk until the manifest is synced.
    pub fn finish_flush(&mut self, flushed: &Vec<usize>, appended: bool, stats: FlushStats) -> (
    total: FlushStats)
        requires
            old(self).wf(),
            on_device(old(self)@, flushed@),
            flushed@.no_duplicates(),
            stats.blocks_cas_failed + flushed@.len() <= usize::MAX,
        ensures
            final(self).wf(),
            final(self)@ == flush_finished(old(self)@, flushed@, appended),
            total == (FlushStats {
                blocks_cas_failed: (stats.blocks_cas_failed + picked(
                    flushed@,
                    |k: int|
                        old(self)@.state(flushed@[k] as int) != SparseBlockState::SYNCING,
                    flushed@.len(),
                ).len()) as usize,
                ..stats
            }),
    {
        let ghost s0 = self@;
        let ghost lost = |k: int| s0.state(flushed@[k] as int) != SparseBlockState::SYNCING;
        let mut total: FlushStats = stats;
        let mut k: usize = 0;
        while k < flushed.len()
            invariant
                self.wf(),
                on_device(s0, flushed@),
                flushed@.no_duplicates(),
                k <= flushed@.len(),
                stats.blocks_cas_failed + flushed@.len() <= usize::MAX,
                lost == (|k: int| s0.state(flushed@[k] as int) != SparseBlockState::SYNCING),
                self@ == (CacheState {
                    blocks: s0.blocks.evicted_all(flushed@.take(k as int)),
                    ..s0
                }),
                self@.num_blocks() == s0.num_blocks(),
                forall|j: int|
                    k <= j < flushed@.len() ==> self@.state(#[trigger] flushed@[j] as int)
                        == s0.state(flushed@[j] as int),
                picked(flushed@, lost, k as nat).len() <= k,
                total == (FlushStats {
                    blocks_cas_failed: (stats.blocks_cas_failed + picked(
                        flushed@,
                        lost,
                        k as nat,
                    ).len()) as usize,
                    ..stats
                }),
            decreases flushed@.len() - k,
        {
            let idx: usize = flushed[k];
            assert(flushed@[k as int] < s0.num_blocks());
            assert(flushed@.take(k + 1).drop_last() =~= flushed@.take(k as int));
            if !self.inner.blocks.transition_syncing_to_not_present(idx) {
                total.blocks_cas_failed = total.blocks_cas_failed + 1;
            }
            assert forall|j: int| k + 1 <= j < flushed@.len() implies self@.state(
                #[trigger] flushed@[j] as int,
            ) == s0.state(flushed@[j] as int) by {
                assert(flushed@[j] != flushed@[k as int]);
                assert(flushed@[j] < s0.num_blocks());
            }
            k = k + 1;
        }
        assert(flushed@.take(k as int) =~= flushed@);
        if appended {
            self.inner.safety_net = SafetyNet::UntilSynced;
        }
        self.inner.flushing_active = false;
        self.inner.rotation_seq = 0;
        self.inner.flushing_open = false;
        total
    }

    /// Ends a failed flush. `copied` says of each claimed block whether its data
    /// was copied back to the active file, where that was needed. A block without
    /// its data must not become dirty, since the next flush would upload zeros:
    /// it is given up, so that later flushes are not blocked for ever.
    pub fn finish_failed_flush(&mut self, snapshot: &Vec<usize>, copied: &Vec<bool>)
        requires
            old(self).wf(),
            on_device(old(self)@, snapshot@),
            snapshot@.no_duplicates(),
            copied@.len() == snapshot@.len(),
        ensures
            final(self).wf(),
            final(self)@ == (CacheState {
                blocks: failed_flush_blocks(old(self)@, snapshot@, copied@),
                ..flush_ended(old(self)@)
            }),
    {
        let ghost s0 = self@;
        let ghost back = |k: int| recovered_at(s0, snapshot@, copied@, k);
        let ghost lost = |k: int| !recovered_at(s0, snapshot@, copied@, k);
        let mut recovered: Vec<bool> = Vec::new();
        let mut k: usize = 0;
        while k < snapshot.len()
            invariant
                self.wf(),
                self@ == s0,
                on_device(s0, snapshot@),
                copied@.len() == snapshot@.len(),
                k <= snapshot@.len(),
                recovered@.len() == k,
                forall|j: int|
                    0 <= j < k ==> #[trigger] recovered@[j] == recovered_at(
                        s0,
                        snapshot@,
                        copied@,
                        j,
                    ),
            decreases snapshot@.len() - k,
        {
            let idx: usize = snapshot[k];
            assert(snapshot@[k as int] < s0.num_blocks());
            let syncing: bool = self.inner.blocks.get(idx) == SparseBlockState::SYNCING;
            recovered.push(!syncing || (self.inner.flushing_open && copied[k]));
            k = k + 1;
        }
        let mut k: usize = 0;
        while k < snapshot.len()
            invariant
                self.wf(),
                on_device(s0, snapshot@),
                k <= snapshot@.len(),
                lost == (|k: int| !recovered_at(s0, snapshot@, copied@, k)),
                recovered@.len() == snapshot@.len(),
                forall|j: int|
                    0 <= j < snapshot@.len() ==> #[trigger] recovered@[j] == recovered_at(
                        s0,
                        snapshot@,
                        copied@,
                        j,
                    ),
                self@ == (CacheState {
                    blocks: s0.blocks.evicted_all(picked(snapshot@, lost, k as nat)),
                    ..s0
                }),
                self@.num_blocks() == s0.num_blocks(),
            decreases snapshot@.len() - k,
        {
            assert(snapshot@[k as int] < s0.num_blocks());
            if !recovered[k] {
                let ghost before = picked(snapshot@, lost, k as nat);
                let _ = self.inner.blocks.transition_syncing_to_not_present(snapshot[k]);
                assert(before.push(snapshot@[k as int]).drop_last() =~= before);
            }
            k = k + 1;
        }
        let ghost s1 = self@;
        let mut k: usize = 0;
        while k < snapshot.len()
            invariant
                self.wf(),
                on_device(s0, snapshot@),
                k <= snapshot@.len(),
                back == (|k: int| recovered_at(s0, snapshot@, copied@, k)),
                recovered@.len() == snapshot@.len(),
                forall|j: int|
                    0 <= j < snapshot@.len() ==> #[trigger] recovered@[j] == recovered_at(
                        s0,
                        snapshot@,
                        copied@,
                        j,
                    ),
                self@ == (CacheState {
                    blocks: s1.blocks.made_dirty_all(picked(snapshot@, back, k as nat)),
                    ..s1
                }),
                self@.num_blocks() == s0.num_blocks(),
            decreases snapshot@.len() - k,
        {
            assert(snapshot@[k as int] < s0.num_blocks());
            if recovered[k] {
                let ghost before = picked(snapshot@, back, k as nat);
                let _ = self.inner.blocks.transition_to_dirty(snapshot[k]);
                assert(before.push(snapshot@[k as int]).drop_last() =~= before);
            }
            k = k + 1;
        }
        self.inner.flushing_active = false;
        self.inner.rotation_seq = 0;
        self.inner.flushing_open = false;
    }
}

proof fn lemma_claimed_upto(blocks: Blocks, n: nat)
    requires
        n <= blocks.states.len() <= u64::MAX,
    ensures
        blocks.claimed_upto(n).states.len() == blocks.states.len(),
        forall|i: int|
            0 <= i < blocks.states.len() ==> #[trigger] blocks.claimed_upto(n).states[i] == if i < n
                && blocks.states[i] == SparseBlockState::DIRTY {
                SparseBlockState::SYNCING
            } else {
                blocks.states[i]
            },
        blocks.counted() ==> blocks.claimed_upto(n).counted(),
    decreases n,
{
    if n > 0 {
        let m = (n - 1) as nat;
        lemma_claimed_upto(blocks, m);
        let mid = blocks.claimed_upto(m);
        if blocks.counted() {
            law_counters_follow_states(mid, m as int);
        }
        assert forall|i: int| 0 <= i < blocks.states.len() implies #[trigger] blocks.claimed_upto(
            n,
        ).states[i] == if i < n && blocks.states[i] == SparseBlockState::DIRTY {
            SparseBlockState::SYNCING
        } else {
            blocks.states[i]
        } by {
            assert(mid.states[i] == if i < m && blocks.states[i] == SparseBlockState::DIRTY {
                SparseBlockState::SYNCING
            } else {
                blocks.states[i]
            });
        }
    }
}

proof fn lemma_dirty_blocks(states: Seq<u8>, n: nat)
    requires
        n <= states.len() <= usize::MAX,
    ensures
        forall|k: int|
            0 <= k < dirty_blocks(states, n).len() ==> #[trigger] dirty_blocks(states, n)[k] < n
                && states[dirty_blocks(states, n)[k] as int] == SparseBlockState::DIRTY,
        forall|i: int, j: int|
            0 <= i < j < dirty_blocks(states, n).len() ==> #[trigger] dirty_blocks(states, n)[i]
                < #[trigger] dirty_blocks(states, n)[j],
        forall|block: usize|
            block < n && states[block as int] == SparseBlockState::DIRTY
                ==> #[trigger] dirty_blocks(states, n).contains(block),
    decreases n,
{
    if n > 0 {
        let m = (n - 1) as nat;
        lemma_dirty_blocks(states, m);
        let before = dirty_blocks(states, m);
        let all = dirty_blocks(states, n);
        assert forall|k: int| 0 <= k < all.len() implies #[trigger] all[k] < n && states[all[k] as int]
            == SparseBlockState::DIRTY by {
            if k < before.len() {
                assert(all[k] == before[k]);
            }
        }
        assert forall|i: int, j: int| 0 <= i < j < all.len() implies #[trigger] all[i]
            < #[trigger] all[j] by {
            assert(all[i] == before[i]);
            if j < before.len() {
                assert(all[j] == before[j]);
            }
        }
        assert forall|block: usize| block < n && states[block as int]
            == SparseBlockState::DIRTY implies #[trigger] all.contains(block) by {
            if block < m {
                assert(before.contains(block));
                let k = choose|k: int| 0 <= k < before.len() && before[k] == block;
                assert(all[k] == block);
            } else {
                assert(all[all.len() - 1] == block);
            }
        }
    }
}

/// A rotation claims every dirty block and nothing else, each once, and keeps the
/// counters in step. No dirty block is left behind it, so every write that comes
/// later makes its block dirty anew.
pub proof fn law_rotation_claims_all_dirty(s: CacheState)
    requires
        s.num_blocks() <= usize::MAX,
    ensures
        ({
            let n = s.blocks.states.len();
            let after = s.blocks.claimed_upto(n);
            let claimed = dirty_blocks(s.blocks.states, n);
            &&& after.states.len() == n
            &&& forall|i: int|
                0 <= i < n ==> #[trigger] after.states[i] == if s.blocks.states[i]
                    == SparseBlockState::DIRTY {
                    SparseBlockState::SYNCING
                } else {
                    s.blocks.states[i]
                }
            &&& forall|block: usize|
                block < n ==> (#[trigger] claimed.contains(block) <==> s.blocks.states[block as int]
                    == SparseBlockState::DIRTY)
            &&& claimed.no_duplicates()
            &&& on_device(s, claimed)
            &&& s.blocks.counted() ==> after.counted()
        }),
{
    let n = s.blocks.states.len();
    lemma_claimed_upto(s.blocks, n);
    lemma_dirty_blocks(s.blocks.states, n);
}

pub proof fn lemma_evicted_all(blocks: Blocks, list: Seq<usize>)
    requires
        blocks.states.len() <= u64::MAX,
        forall|k: int| 0 <= k < list.len() ==> #[trigger] list[k] < blocks.states.len(),
    ensures
        blocks.evicted_all(list).states.len() == blocks.states.len(),
        forall|i: int|
            0 <= i < blocks.states.len() ==> #[trigger] blocks.evicted_all(list).states[i] == if (
            exists|k: int| 0 <= k < list.len() && #[trigger] list[k] == i) && blocks.states[i]
                == SparseBlockState::SYNCING {
                SparseBlockState::NOT_PRESENT
            } else {
                blocks.states[i]
            },
        blocks.counted() ==> blocks.evicted_all(list).counted(),
    decreases list.len(),
{
    if list.len() > 0 {
        let before = list.drop_last();
        assert forall|k: int| 0 <= k < before.len() implies #[trigger] before[k]
            < blocks.states.len() by {
            assert(before[k] == list[k]);
        }
        lemma_evicted_all(blocks, before);
        let mid = blocks.evicted_all(before);
        let last = list[list.len() - 1] as int;
        if blocks.counted() {
            law_counters_follow_states(mid, last);
        }
        assert forall|i: int| 0 <= i < blocks.states.len() implies #[trigger] blocks.evicted_all(
            list,
        ).states[i] == if (exists|k: int| 0 <= k < list.len() && #[trigger] list[k] == i)
            && blocks.states[i] == SparseBlockState::SYNCING {
            SparseBlockState::NOT_PRESENT
        } else {
            blocks.states[i]
        } by {
            assert(mid.states[i] == if (exists|k: int|
                0 <= k < before.len() && #[trigger] before[k] == i) && blocks.states[i]
                == SparseBlockState::SYNCING {
                SparseBlockState::NOT_PRESENT
            } else {
                blocks.states[i]
            });
            if exists|k: int| 0 <= k < before.len() && #[trigger] before[k] == i {
                let k = choose|k: int| 0 <= k < before.len() && #[trigger] before[k] == i;
                assert(list[k] == i);
            }
            if exists|k: int| 0 <= k < list.len() && #[trigger] list[k] == i {
                let k = choose|k: int| 0 <= k < list.len() && #[trigger] list[k] == i;
                if k < before.len() {
                    assert(before[k] == i);
                }
            }
        }
    }
}

/// A finished flush evicts exactly the flushed blocks that no write has touched
/// since they were claimed: a block that became dirty during the flush stays
/// dirty. The counters stay in step.
pub proof fn law_flush_keeps_concurrent_writes(s: CacheState, flushed: Seq<usize>, block: int)
    requires
        s.num_blocks() <= u64::MAX,
        on_device(s, flushed),
        0 <= block < s.num_blocks(),
    ensures
        ({
            let after = s.blocks.evicted_all(flushed);
            &&& after.states[block] == if s.state(block) == SparseBlockState::SYNCING && (
            exists|k: int| 0 <= k < flushed.len() && #[trigger] flushed[k] == block) {
                SparseBlockState::NOT_PRESENT
            } else {
                s.state(block)
            }
            &&& s.blocks.counted() ==> after.counted()
        }),
{
    lemma_evicted_all(s.blocks, flushed);
}

/// A picked block is one of the list that was kept, and each kept one is picked.
proof fn lemma_picked(list: Seq<usize>, keep: spec_fn(int) -> bool, n: nat, block: usize)
    requires
        n <= list.len(),
    ensures
        picked(list, keep, n).contains(block) <==> exists|k: int|
            0 <= k < n && #[trigger] list[k] == block && keep(k),
        picked(list, keep, n).len() <= n,
    decreases n,
{
    if n > 0 {
        let m = (n - 1) as nat;
        lemma_picked(list, keep, m, block);
        let before = picked(list, keep, m);
        let all = picked(list, keep, n);
        if before.contains(block) {
            let i = choose|i: int| 0 <= i < before.len() && before[i] == block;
            assert(all[i] == block);
        }
        if keep(n - 1) && list[n - 1] == block {
            assert(all[all.len() - 1] == block);
        }
        if all.contains(block) {
            let i = choose|i: int| 0 <= i < all.len() && all[i] == block;
            if i < before.len() {
                assert(before[i] == block);
            } else {
                assert(list[n - 1] == block && keep(n - 1));
            }
        }
    }
}

/// After a failed flush no claimed block is left behind: each is dirty if the
/// active file has its data and not present otherwise. No other block changes,
/// and the counters stay in step.
pub proof fn law_failed_flush_releases_blocks(
    s: CacheState,
    snapshot: Seq<usize>,
    copied: Seq<bool>,
)
    requires
        s.num_blocks() <= usize::MAX,
        on_device(s, snapshot),
        snapshot.no_duplicates(),
        copied.len() == snapshot.len(),
    ensures
        ({
            let after = failed_flush_blocks(s, snapshot, copied);
            &&& after.states.len() == s.num_blocks()
            &&& forall|k: int|
                0 <= k < snapshot.len() ==> after.states[#[trigger] snapshot[k] as int]
                    == if recovered_at(s, snapshot, copied, k) {
                    SparseBlockState::DIRTY
                } else {
                    SparseBlockState::NOT_PRESENT
                }
            &&& forall|block: int|
                0 <= block < s.num_blocks() && !snapshot.contains(block as usize)
                    ==> #[trigger] after.states[block] == s.state(block)
            &&& s.blocks.counted() ==> after.counted()
        }),
{
    let n = snapshot.len();
    let lost = |k: int| !recovered_at(s, snapshot, copied, k);
    let back = |k: int| recovered_at(s, snapshot, copied, k);
    let lost_list = picked(snapshot, lost, n);
    let back_list = picked(snapshot, back, n);
    lemma_picked_on_device(s, snapshot, lost, n);
    lemma_picked_on_device(s, snapshot, back, n);
    lemma_evicted_all(s.blocks, lost_list);
    let mid = s.blocks.evicted_all(lost_list);
    lemma_made_dirty_all(mid, back_list);
    let after = failed_flush_blocks(s, snapshot, copied);
    assert(after == mid.made_dirty_all(back_list));
    assert forall|k: int| 0 <= k < snapshot.len() implies after.states[#[trigger] snapshot[k] as int]
        == if recovered_at(s, snapshot, copied, k) {
        SparseBlockState::DIRTY
    } else {
        SparseBlockState::NOT_PRESENT
    } by {
        let block = snapshot[k];
        assert(block < s.num_blocks());
        lemma_picked(snapshot, lost, n, block);
        lemma_picked(snapshot, back, n, block);
        if recovered_at(s, snapshot, copied, k) {
            assert(back(k));
            assert(back_list.contains(block));
        } else {
            assert(lost(k));
            assert(lost_list.contains(block));
            let i = choose|i: int| 0 <= i < lost_list.len() && lost_list[i] == block;
            assert(lost_list[i] == block as int);
            if back_list.contains(block) {
                let j = choose|j: int| 0 <= j < n && #[trigger] snapshot[j] == block && back(j);
                assert(j == k);
                assert(false);
            }
        }
        assert(mid.made_dirty_all(back_list).states[block as int] == if back_list.contains(
            block as int as usize,
        ) {
            SparseBlockState::DIRTY
        } else {
            mid.states[block as int]
        });
    }
    assert forall|block: int|
        0 <= block < s.num_blocks() && !snapshot.contains(block as usize) implies #[trigger]
    after.states[block] == s.state(block) by {
        lemma_picked(snapshot, lost, n, block as usize);
        lemma_picked(snapshot, back, n, block as usize);
        if exists|k: int| 0 <= k < lost_list.len() && #[trigger] lost_list[k] == block {
            let k = choose|k: int| 0 <= k < lost_list.len() && #[trigger] lost_list[k] == block;
            assert(lost_list[k] == block as usize);
            assert(lost_list.contains(block as usize));
        }
        assert(mid.states[block] == s.state(block));
    }
}

/// A flush starts only outside a handoff. Where a flushing file is on disk, nothing is
/// rotated, and the file is removed exactly if neither a running flush nor a finished one
/// needs it. Without one, the data file is rotated.
pub proof fn law_flush_starts(cache: WriteCache<Active>, on_disk: bool, start: FlushStart)
    requires
        call_ensures(WriteCache::<Active>::flush_start, (&cache, on_disk), start),
    ensures
        start is Rotate <==> cache.inner.handoff_phase is Idle && !on_disk,
        start is RemoveOrphan <==> cache.inner.handoff_phase is Idle && on_disk
            && !cache.inner.flushing_active && !cache.inner.flushing_open
            && cache.inner.safety_net is NotNeeded,
{
}

/// A rotation that claims hands out every dirty block, in ascending order, and no other.
/// Afterwards these are claimed, every other block is as it was, and the rotation is marked
/// with the last sequence number. One whose files could not be swapped leaves every block
/// as it was and no mark, and fails with the error of the file operation, that of undoing it
/// first.
pub proof fn law_rotation(
    cache: &mut WriteCache<Active>,
    files: RotationFiles,
    result: Result<Vec<usize>, CacheError>,
)
    requires
        mut_ref_current(cache).wf(),
        call_ensures(WriteCache::<Active>::rotate_and_snapshot, (cache, files), result),
    ensures
        ({
            let s = mut_ref_current(cache)@;
            let t = mut_ref_future(cache)@;
            &&& t == (CacheState {
                blocks: t.blocks,
                rotation_seq: t.rotation_seq,
                flushing_active: t.flushing_active,
                flushing_open: t.flushing_open,
                ..s
            })
            &&& result is Ok <==> files is Swapped
            &&& result matches Ok(claimed) ==> {
                &&& t.rotation_seq == s.sequence && t.flushing_active && t.flushing_open
                &&& t.num_blocks() == s.num_blocks()
                &&& forall|b: int|
                    0 <= b < s.num_blocks() ==> #[trigger] t.blocks.states[b]
                        == if s.blocks.states[b] == 2 {
                        3
                    } else {
                        s.blocks.states[b]
                    }
                &&& forall|b: usize|
                    b < s.num_blocks() && s.blocks.states[b as int] == 2
                        ==> #[trigger] claimed@.contains(b)
                &&& forall|k: int|
                    0 <= k < claimed@.len() ==> #[trigger] claimed@[k] < s.num_blocks()
                        && s.blocks.states[claimed@[k] as int] == 2
                &&& forall|j: int, k: int|
                    0 <= j < k < claimed@.len() ==> #[trigger] claimed@[j] < #[trigger] claimed@[k]
                &&& s.blocks.counted() ==> t.blocks.counted()
            }
            &&& result is Err ==> t.blocks == s.blocks && t.rotation_seq == 0 && !t.flushing_active
                && t.flushing_open == s.flushing_open
            &&& files matches RotationFiles::RenameFailed(e) ==> result->Err_0
                == CacheError::Io(e)
            &&& files matches RotationFiles::OpenFailed { error, undo: None } ==> result->Err_0
                == CacheError::Io(error)
            &&& files matches RotationFiles::OpenFailed { error, undo: Some(undo) }
                ==> result->Err_0 == CacheError::Io(undo)
        }),
{
    let s = mut_ref_current(cache)@;
    law_rotation_claims_all_dirty(s);
    lemma_dirty_blocks(s.blocks.states, s.blocks.states.len());
}

/// A rotation that does not claim leaves every block as it was.
pub proof fn law_bare_rotation(
    cache: &mut WriteCache<Active>,
    files: RotationFiles,
    result: Result<(), CacheError>,
)
    requires
        call_ensures(WriteCache::<Active>::rotate_data_file, (cache, files), result),
    ensures
        mut_ref_future(cache)@.blocks == mut_ref_current(cache)@.blocks,
        result is Ok <==> files is Swapped,
        result is Ok ==> mut_ref_future(cache)@.flushing_open && mut_ref_future(
            cache,
        )@.flushing_active && mut_ref_future(cache)@.rotation_seq
            == mut_ref_current(cache)@.sequence,
        result is Err ==> !mut_ref_future(cache)@.flushing_active && mut_ref_future(
            cache,
        )@.rotation_seq == 0,
{
}

proof fn lemma_picked_count(list: Seq<usize>, f: spec_fn(usize) -> bool, n: nat)
    requires
        n <= list.len(),
    ensures
        picked(list, |k: int| f(list[k]), n).len() == list.take(n as int).filter(f).len(),
    decreases n,
{
    reveal(Seq::filter);
    if n > 0 {
        lemma_picked_count(list, f, (n - 1) as nat);
        assert(list.take(n as int).drop_last() =~= list.take(n - 1));
        assert(list.take(n as int).last() == list[n - 1]);
    }
}

proof fn lemma_same_picked(list: Seq<usize>, f: spec_fn(int) -> bool, g: spec_fn(int) -> bool, n: nat)
    requires
        forall|k: int| 0 <= k < n ==> #[trigger] f(k) == g(k),
    ensures
        picked(list, f, n) == picked(list, g, n),
    decreases n,
{
    if n > 0 {
        lemma_same_picked(list, f, g, (n - 1) as nat);
        assert(f(n - 1) == g(n - 1));
    }
}

/// A flush that ended well leaves a block absent exactly if it flushed it and nobody has
/// written it since; those that were written since are counted. Every other block is as it
/// was, no rotation is marked, and the flushing file is needed if packs were appended.
pub proof fn law_flush_ends(
    cache: &mut WriteCache<Active>,
    flushed: Vec<usize>,
    appended: bool,
    stats: FlushStats,
    total: FlushStats,
)
    requires
        mut_ref_current(cache).wf(),
        on_device(mut_ref_current(cache)@, flushed@),
        flushed@.no_duplicates(),
        stats.blocks_cas_failed + flushed@.len() <= usize::MAX,
        call_ensures(WriteCache::<Active>::finish_flush, (cache, &flushed, appended, stats), total),
    ensures
        ({
            let s = mut_ref_current(cache)@;
            let t = mut_ref_future(cache)@;
            &&& t.num_blocks() == s.num_blocks()
            &&& forall|b: int|
                0 <= b < s.num_blocks() ==> #[trigger] t.blocks.states[b] == if s.blocks.states[b]
                    == 3 && flushed@.contains(b as usize) {
                    0
                } else {
                    s.blocks.states[b]
                }
            &&& s.blocks.counted() ==> t.blocks.counted()
            &&& !t.flushing_active && !t.flushing_open && t.rotation_seq == 0
            &&& appended ==> t.safety_net == SafetyNet::UntilSynced
            &&& !appended ==> t.safety_net == s.safety_net
            &&& t == (CacheState {
                blocks: t.blocks,
                rotation_seq: 0,
                flushing_active: false,
                flushing_open: false,
                safety_net: t.safety_net,
                ..s
            })
            &&& total.blocks_cas_failed == stats.blocks_cas_failed + flushed@.filter(
                |b: usize| s.blocks.states[b as int] != 3,
            ).len()
            &&& total == (FlushStats { blocks_cas_failed: total.blocks_cas_failed, ..stats })
        }),
{
    let s = mut_ref_current(cache)@;
    let t = mut_ref_future(cache)@;
    lemma_evicted_all(s.blocks, flushed@);
    assert forall|b: int| 0 <= b < s.num_blocks() implies #[trigger] t.blocks.states[b]
        == if s.blocks.states[b] == 3 && flushed@.contains(b as usize) {
        0
    } else {
        s.blocks.states[b]
    } by {
        law_flush_keeps_concurrent_writes(s, flushed@, b);
        if flushed@.contains(b as usize) {
            let k = choose|k: int| 0 <= k < flushed@.len() && flushed@[k] == b as usize;
            assert(flushed@[k] == b);
        }
        if exists|k: int| 0 <= k < flushed@.len() && #[trigger] flushed@[k] == b {
            let k = choose|k: int| 0 <= k < flushed@.len() && #[trigger] flushed@[k] == b;
            assert(flushed@[k] == b as usize);
        }
    }
    let f = |b: usize| s.blocks.states[b as int] != 3;
    let n = flushed@.len();
    lemma_picked_count(flushed@, f, n);
    assert(flushed@.take(n as int) =~= flushed@);
    lemma_same_picked(
        flushed@,
        |k: int| s.state(flushed@[k] as int) != SparseBlockState::SYNCING,
        |k: int| f(flushed@[k]),
        n,
    );
    flushed@.lemma_filter_len(f);
}

/// A flush that failed leaves none of its blocks claimed. One that was written since, or whose
/// data was copied back from the flushing file, is dirty; one whose data is lost is absent.
/// Every other block is as it was, and no rotation is marked.
pub proof fn law_failed_flush_ends(
    cache: &mut WriteCache<Active>,
    snapshot: Vec<usize>,
    copied: Vec<bool>,
)
    requires
        mut_ref_current(cache).wf(),
        on_device(mut_ref_current(cache)@, snapshot@),
        snapshot@.no_duplicates(),
        copied@.len() == snapshot@.len(),
        call_ensures(WriteCache::<Active>::finish_failed_flush, (cache, &snapshot, &copied), ()),
    ensures
        ({
            let s = mut_ref_current(cache)@;
            let t = mut_ref_future(cache)@;
            &&& t.num_blocks() == s.num_blocks()
            &&& forall|k: int|
                0 <= k < snapshot@.len() ==> {
                    let b = #[trigger] snapshot@[k] as int;
                    &&& s.blocks.states[b] != 3 ==> t.blocks.states[b] == 2
                    &&& s.blocks.states[b] == 3 && s.flushing_open && copied@[k]
                        ==> t.blocks.states[b] == 2
                    &&& s.blocks.states[b] == 3 && !(s.flushing_open && copied@[k])
                        ==> t.blocks.states[b] == 0
                }
            &&& forall|b: int|
                0 <= b < s.num_blocks() && !snapshot@.contains(b as usize)
                    ==> #[trigger] t.blocks.states[b] == s.blocks.states[b]
            &&& s.blocks.counted() ==> t.blocks.counted()
            &&& t == (CacheState {
                blocks: t.blocks,
                rotation_seq: 0,
                flushing_active: false,
                flushing_open: false,
                ..s
            })
        }),
{
    let s = mut_ref_current(cache)@;
    let t = mut_ref_future(cache)@;
    law_failed_flush_releases_blocks(s, snapshot@, copied@);
    let after = failed_flush_blocks(s, snapshot@, copied@);
    assert forall|k: int| 0 <= k < snapshot@.len() implies {
        let b = #[trigger] snapshot@[k] as int;
        &&& s.blocks.states[b] != 3 ==> t.blocks.states[b] == 2
        &&& s.blocks.states[b] == 3 && s.flushing_open && copied@[k] ==> t.blocks.states[b] == 2
        &&& s.blocks.states[b] == 3 && !(s.flushing_open && copied@[k]) ==> t.blocks.states[b] == 0
    } by {
        assert(after.states[snapshot@[k] as int] == if recovered_at(s, snapshot@, copied@, k) {
            SparseBlockState::DIRTY
        } else {
            SparseBlockState::NOT_PRESENT
        });
    }
}

/// A block is copied back exactly if a flush still holds it and the flushing file is open: all
/// of it that lies on the device, at its place.
pub proof fn law_copies_back(
    inner: CacheInner,
    list: Vec<usize>,
    copies: Vec<Option<BlockCopy>>,
    k: int,
)
    requires
        inner.wf(),
        on_device(inner@, list@),
        call_ensures(CacheInner::copies_back, (&inner, &list), copies),
        0 <= k < list@.len(),
    ensures
        copies@.len() == list@.len(),
        copies@[k] is Some <==> inner@.blocks.states[list@[k] as int] == 3 && inner.flushing_open,
        copies@[k] matches Some(copy) ==> {
            &&& copy.offset == list@[k] * inner.config.block_size
            &&& 0 < copy.len <= inner.config.block_size
            &&& copy.offset + copy.len == inner.config.device_size || (copy.len
                == inner.config.block_size && copy.offset + copy.len <= inner.config.device_size)
        },
{
    assert(list@[k] < inner@.num_blocks());
    assert(copies@[k] == (if needs_copy(inner@, list@[k] as int) {
        Some(block_copy(inner@, list@[k] as int))
    } else {
        None
    }));
    lemma_block_on_device(list@[k] as int, inner@.bs(), inner@.ds());
}

/// A skipped block is dirty again, unless its data was to be copied back and was not: then it
/// stays claimed. Every other block is as it was, and so is everything else.
pub proof fn law_skipped_blocks_are_dirty_again(
    inner: &mut CacheInner,
    skipped: Vec<usize>,
    copied: Vec<bool>,
)
    requires
        mut_ref_current(inner).wf(),
        on_device(mut_ref_current(inner)@, skipped@),
        copied@.len() == skipped@.len(),
        skipped@.no_duplicates(),
        call_ensures(CacheInner::finish_skipped, (inner, &skipped, &copied), ()),
    ensures
        ({
            let s = mut_ref_current(inner)@;
            let t = mut_ref_future(inner)@;
            &&& t == (CacheState { blocks: t.blocks, ..s })
            &&& t.num_blocks() == s.num_blocks()
            &&& forall|k: int|
                0 <= k < skipped@.len() ==> {
                    let b = #[trigger] skipped@[k] as int;
                    &&& s.blocks.states[b] == 3 && s.flushing_open && !copied@[k]
                        ==> t.blocks.states[b] == 3
                    &&& !(s.blocks.states[b] == 3 && s.flushing_open) || copied@[k]
                        ==> t.blocks.states[b] == 2
                }
            &&& forall|b: int|
                0 <= b < s.num_blocks() && !skipped@.contains(b as usize)
                    ==> #[trigger] t.blocks.states[b] == s.blocks.states[b]
            &&& s.blocks.counted() ==> t.blocks.counted()
        }),
{
    let s = mut_ref_current(inner)@;
    let t = mut_ref_future(inner)@;
    let keep = |k: int| !needs_copy(s, skipped@[k] as int) || copied@[k];
    let n = skipped@.len();
    let list = picked(skipped@, keep, n);
    lemma_picked_on_device(s, skipped@, keep, n);
    assert forall|j: int| 0 <= j < list.len() implies #[trigger] list[j] < s.blocks.states.len() by {}
    lemma_made_dirty_all(s.blocks, list);
    assert forall|k: int| 0 <= k < skipped@.len() implies {
        let b = #[trigger] skipped@[k] as int;
        &&& s.blocks.states[b] == 3 && s.flushing_open && !copied@[k] ==> t.blocks.states[b] == 3
        &&& !(s.blocks.states[b] == 3 && s.flushing_open) || copied@[k] ==> t.blocks.states[b] == 2
    } by {
        let block = skipped@[k];
        lemma_picked(skipped@, keep, n, block);
        assert(block < s.num_blocks());
        assert(s.blocks.made_dirty_all(list).states[block as int] == if list.contains(
            block as int as usize,
        ) {
            SparseBlockState::DIRTY
        } else {
            s.blocks.states[block as int]
        });
        if list.contains(block) {
            let j = choose|j: int| 0 <= j < n && #[trigger] skipped@[j] == block && keep(j);
            assert(j == k);
        }
        if keep(k) {
            assert(skipped@[k] == block && keep(k));
        }
    }
    assert forall|b: int|
        0 <= b < s.num_blocks() && !skipped@.contains(b as usize) implies #[trigger]
    t.blocks.states[b] == s.blocks.states[b] by {
        lemma_picked(skipped@, keep, n, b as usize);
        assert(s.blocks.made_dirty_all(list).states[b] == if list.contains(b as usize) {
            SparseBlockState::DIRTY
        } else {
            s.blocks.states[b]
        });
    }
}

/// A flush that found nothing leaves every block as it was, and no rotation.
pub proof fn law_empty_flush_ends(cache: &mut WriteCache<Active>)
    requires
        call_ensures(WriteCache::<Active>::flush_empty, (cache,), ()),
    ensures
        ({
            let s = mut_ref_current(cache)@;
            mut_ref_future(cache)@ == (CacheState {
                rotation_seq: 0,
                flushing_active: false,
                flushing_open: false,
                ..s
            })
        }),
{
}

} // verus!
