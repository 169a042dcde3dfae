//! What a crash leaves of a device.
//!
//! After a crash the cache is opened from the metadata of the last checkpoint, the
//! entries that its log has since then, the data files, and the manifest as it was last
//! synced. This module shows that nothing is lost: recovery finds the newest data of
//! each block.

use vstd::prelude::*;
use crate::write_cache::consistency::block_bytes;
use crate::write_cache::flush::Blake3Hash;
use crate::write_cache::geometry::lemma_range_blocks;
use crate::write_cache::init::{lemma_replayed, logged};
use crate::write_cache::page_crcs::{captured, captured_zeros};
use crate::write_cache::rotate::{start_of, FlushStart};
use crate::write_cache::state_map::SparseBlockState;
use crate::write_cache::volume::{
    after, after_all, after_finish, after_reopen, after_rotate, after_write, all_allowed, allowed,
    block_recoverable, has_packs, last_written, law_device_holds_last_written,
    law_step_changes_what_it_tells, lemma_block, lemma_compact, lemma_fail, lemma_finish,
    lemma_promote, lemma_rotate, lemma_skip, lemma_write, packs_hold, recoverable, stays_absent,
    stays_dirty, taken_from_flushing, told, touches, with_stored_packs, write_allowed, zeros,
    ChunkFlush, Remains, Step, Volume,
};
use crate::write_cache::write::{
    law_claim_range, law_commit_dirties_range, law_log_covers_new_dirty_blocks, range_claimed,
    range_dirtied, range_entries, WalEntry,
};

verus! {

/// Metadata of the moment describes the device: the cache can be opened from it and the
/// manifest of the moment, with a log that has entries of dirty blocks alone, where there
/// is a flushing file exactly if a rotation is active.
pub proof fn law_checkpoint_is_recoverable(v: Volume, left: Remains)
    requires
        v.sound(),
        left.opening.wf(),
        left.opening.config == v.state.config,
        left.opening.loaded.states@ == v.state.blocks.states,
        left.opening.loaded.rotation_seq == v.state.rotation_seq,
        left.chunks == v.chunks,
        left.flushing_exists == v.state.flushing_open,
        v.state.flushing_open ==> v.state.rotation_seq > 0,
        forall|i: int|
            0 <= i < left.entries.len() ==> ((#[trigger] left.entries[i]).block_index
                < v.state.num_blocks() ==> v.state.state(left.entries[i].block_index as int)
                == SparseBlockState::DIRTY),
    ensures
        recoverable(v, left),
{
    let entries = left.entries;
    assert(with_stored_packs(v, left) == v);
    assert forall|block: int| v.has(block) implies #[trigger] block_recoverable(
        v,
        left,
        block,
    ) by {
        lemma_block(v, block);
        lemma_replayed(v.state.blocks.states, entries, block);
        if logged(entries, block) {
            let i = choose|i: int|
                0 <= i < entries.len() && (#[trigger] entries[i]).block_index == block;
            assert(v.state.state(entries[i].block_index as int) == SparseBlockState::DIRTY);
        }
    }
}

/// Syncing the manifest does no harm: a cache that can be opened from an older manifest can
/// be opened from that of the moment.
pub proof fn law_synced_manifest_is_recoverable(v: Volume, left: Remains)
    requires
        v.sound(),
        recoverable(v, left),
    ensures
        recoverable(v, (Remains { chunks: v.chunks, ..left })),
{
    let now = Remains { chunks: v.chunks, ..left };
    assert(with_stored_packs(v, now) == v);
    assert(now.states() == left.states());
    assert forall|block: int| v.has(block) implies #[trigger] block_recoverable(v, now, block) by {
        assert(block_recoverable(v, left, block));
        lemma_block(v, block);
        assert(taken_from_flushing(now, block) == taken_from_flushing(left, block));
    }
}

/// The entries that a write adds to the log.
pub open spec fn write_logged(v: Volume, offset: int, len: int) -> Seq<WalEntry> {
    range_entries(range_claimed(v.state, offset, len), offset, len)
}

/// The entries that a step adds to the log.
pub open spec fn logged_by(v: Volume, step: Step) -> Seq<WalEntry> {
    match step {
        Step::Write { offset, data } => write_logged(v, offset, data.len() as int),
        Step::Zero { offset, len } => write_logged(v, offset, len),
        _ => Seq::empty(),
    }
}

/// What is left after a step. A flushing file stays until the next checkpoint, and what
/// the step does to the manifest is lost unless that is synced.
pub open spec fn left_by(v: Volume, step: Step, left: Remains) -> Remains {
    Remains {
        entries: left.entries + logged_by(v, step),
        flushing_exists: left.flushing_exists || step is Rotate,
        ..left
    }
}

/// Whether the log tells of all that a write changes: a block that it finds dirty is
/// one that recovery leaves in the active file, and the sequence numbers suffice. (A
/// block that was promoted since the checkpoint is dirty, and the log does not tell.)
pub open spec fn write_tells(v: Volume, left: Remains, offset: int, len: int) -> bool {
    &&& v.state.sequence + write_logged(v, offset, len).len() <= u64::MAX
    &&& forall|block: int|
        v.has(block) && touches(v, offset, len, block) && #[trigger] v.state.state(block)
            == SparseBlockState::DIRTY ==> !taken_from_flushing(left, block)
}

/// Whether a step may be taken on metadata and a log from before it. A rotation needs a
/// checkpoint right before it: metadata from before any rotation, and an empty log.
pub open spec fn step_tells(v: Volume, step: Step, left: Remains) -> bool {
    match step {
        Step::Write { offset, data } => write_tells(v, left, offset, data.len() as int),
        Step::Zero { offset, len } => write_tells(v, left, offset, len),
        Step::Rotate => !left.flushing_exists && left.opening.loaded.rotation_seq == 0
            && left.entries.len() == 0,
        Step::Reopen { .. } => false,
        _ => true,
    }
}

/// Stored blocks stay as they are.
spec fn keeps_stored(v: Volume, w: Volume) -> bool {
    &&& forall|hash: Blake3Hash| #[trigger]
        v.stored.contains_key(hash) ==> w.stored.contains_key(hash) && w.stored[hash]
            == v.stored[hash]
    &&& w.blocks_per_chunk == v.blocks_per_chunk
    &&& w.zero_hash == v.zero_hash
}

/// What the packs of the stored manifest have of a block does not change.
proof fn lemma_packs_hold(v: Volume, w: Volume, left: Remains, block: int)
    requires
        recoverable(v, left),
        keeps_stored(v, w),
        w.state.config == v.state.config,
    ensures
        packs_hold(w, left, block) == packs_hold(v, left, block),
        forall|chunk: u32, place: u32|
            w.answer_sound(#[trigger] with_stored_packs(w, left).answer(chunk, place)),
{
    let old_view = with_stored_packs(v, left);
    let new_view = with_stored_packs(w, left);
    assert forall|chunk: u32, place: u32| w.answer_sound(
        #[trigger] new_view.answer(chunk, place),
    ) by {
        assert(new_view.packs(chunk) == old_view.packs(chunk));
        assert(v.answer_sound(old_view.answer(chunk, place)));
    }
    let (chunk, place) = (v.chunk_of(block), v.place_of(block));
    assert(new_view.packs(chunk) == old_view.packs(chunk));
    assert(v.answer_sound(old_view.answer(chunk, place)));
}

/// A step that keeps each block where recovery looks for it.
proof fn lemma_kept(v: Volume, w: Volume, left: Remains)
    requires
        v.sound(),
        w.sound(),
        recoverable(v, left),
        keeps_stored(v, w),
        w.state.config == v.state.config,
        w.state.num_blocks() == v.state.num_blocks(),
        w.files.flushing == v.files.flushing,
        stays_absent(v, w),
        stays_dirty(v, w),
        forall|block: int| v.has(block) ==> #[trigger] w.visible(block) == v.visible(block),
    ensures
        recoverable(w, left),
{
    lemma_packs_hold(v, w, left, 0);
    assert forall|block: int| w.has(block) implies #[trigger] block_recoverable(
        w,
        left,
        block,
    ) by {
        assert(block_recoverable(v, left, block));
        lemma_packs_hold(v, w, left, block);
        assert(w.visible(block) == v.visible(block));
        assert(block_bytes(w.files.flushing, w.state, block) == block_bytes(
            v.files.flushing,
            v.state,
            block,
        ));
    }
}

proof fn lemma_write_logged(v: Volume, offset: int, len: int, block: int)
    requires
        v.sound(),
        write_allowed(v, offset, len),
        v.state.sequence + write_logged(v, offset, len).len() <= u64::MAX,
        v.has(block),
    ensures
        logged(write_logged(v, offset, len), block) <==> touches(v, offset, len, block)
            && v.state.state(block) != SparseBlockState::DIRTY,
{
    let s = range_claimed(v.state, offset, len);
    let added = write_logged(v, offset, len);
    lemma_range_blocks(offset, len, v.bs(), v.ds());
    law_claim_range(v.state, offset, len);
    law_commit_dirties_range(s, offset, len);
    law_log_covers_new_dirty_blocks(s, offset, len);
    if logged(added, block) {
        let i = choose|i: int| 0 <= i < added.len() && (#[trigger] added[i]).block_index == block;
        assert(range_entries(s, offset, len)[i].block_index == block);
        assert(touches(v, offset, len, block));
        assert(v.state.state(block) != SparseBlockState::DIRTY);
    }
    if touches(v, offset, len, block) && v.state.state(block) != SparseBlockState::DIRTY {
        assert(s.state(block) != SparseBlockState::DIRTY);
        assert(range_dirtied(s, offset, len).state(block) == SparseBlockState::DIRTY);
        let i = choose|i: int|
            0 <= i < range_entries(s, offset, len).len() && (#[trigger] range_entries(
                s,
                offset,
                len,
            )[i]).block_index == block;
        assert(added[i].block_index == block);
    }
}

proof fn lemma_logged_in(entries: Seq<WalEntry>, added: Seq<WalEntry>, block: int)
    ensures
        logged(entries + added, block) <==> logged(entries, block) || logged(added, block),
{
    let all = entries + added;
    if logged(entries, block) {
        let i = choose|i: int|
            0 <= i < entries.len() && (#[trigger] entries[i]).block_index == block;
        assert(all[i].block_index == block);
    }
    if logged(added, block) {
        let i = choose|i: int| 0 <= i < added.len() && (#[trigger] added[i]).block_index == block;
        assert(all[entries.len() + i].block_index == block);
    }
    if logged(all, block) {
        let i = choose|i: int| 0 <= i < all.len() && (#[trigger] all[i]).block_index == block;
        if i < entries.len() {
            assert(entries[i].block_index == block);
        } else {
            assert(added[i - entries.len()].block_index == block);
        }
    }
}

proof fn lemma_written(
    v: Volume,
    left: Remains,
    offset: int,
    data: Seq<u8>,
    crcs: Map<u32, Seq<u32>>,
)
    requires
        v.sound(),
        recoverable(v, left),
        write_allowed(v, offset, data.len() as int),
        write_tells(v, left, offset, data.len() as int),
    ensures
        recoverable(
            after_write(v, offset, data, crcs),
            (Remains { entries: left.entries + write_logged(v, offset, data.len() as int), ..left }),
        ),
{
    let len = data.len() as int;
    let w = after_write(v, offset, data, crcs);
    let added = write_logged(v, offset, len);
    let next = Remains { entries: left.entries + added, ..left };
    let loaded = left.opening.loaded.states@;
    lemma_write(v, offset, data, crcs);
    law_claim_range(v.state, offset, len);
    law_commit_dirties_range(range_claimed(v.state, offset, len), offset, len);
    lemma_packs_hold(v, w, left, 0);
    assert(with_stored_packs(w, next) == with_stored_packs(w, left));
    assert forall|block: int| w.has(block) implies #[trigger] block_recoverable(
        w,
        next,
        block,
    ) by {
        assert(block_recoverable(v, left, block));
        lemma_block(v, block);
        lemma_packs_hold(v, w, left, block);
        lemma_write_logged(v, offset, len, block);
        lemma_logged_in(left.entries, added, block);
        lemma_replayed(loaded, left.entries, block);
        lemma_replayed(loaded, next.entries, block);
        assert(block_bytes(w.files.flushing, w.state, block) == block_bytes(
            v.files.flushing,
            v.state,
            block,
        ));
    }
}

proof fn lemma_rotated(v: Volume, left: Remains)
    requires
        v.sound(),
        !v.state.flushing_open,
        left.opening.loaded.rotation_seq == 0,
        left.entries.len() == 0,
        !left.flushing_exists,
        recoverable(v, left),
    ensures
        recoverable(after_rotate(v), (Remains { flushing_exists: true, ..left })),
{
    let w = after_rotate(v);
    let next = Remains { flushing_exists: true, ..left };
    lemma_rotate(v);
    lemma_packs_hold(v, w, left, 0);
    assert(with_stored_packs(w, next) == with_stored_packs(w, left));
    assert(next.states() == left.states());
    assert forall|block: int| w.has(block) implies #[trigger] block_recoverable(
        w,
        next,
        block,
    ) by {
        assert(block_recoverable(v, left, block));
        lemma_block(v, block);
        lemma_packs_hold(v, w, left, block);
        lemma_replayed(left.opening.loaded.states@, left.entries, block);
        assert(!logged(left.entries, block));
        assert(w.visible(block) == v.visible(block));
        assert(block_bytes(w.files.flushing, w.state, block) == block_bytes(
            v.files.active,
            v.state,
            block,
        ));
    }
}

/// Between two checkpoints the cache can be opened again at any time: whatever step is
/// taken, metadata and log, with the entries that the step adds, lead recovery to the
/// newest data of each block, even if the manifest was not synced since.
pub proof fn law_steps_stay_recoverable(v: Volume, step: Step, left: Remains)
    requires
        v.sound(),
        allowed(v, step),
        recoverable(v, left),
        step_tells(v, step, left),
    ensures
        recoverable(after(v, step), left_by(v, step, left)),
{
    let w = after(v, step);
    let s = v.state;
    let pages = (s.bs() / 4096) as nat;
    let next = left_by(v, step, left);
    assert(left.entries + Seq::<WalEntry>::empty() =~= left.entries);
    law_step_changes_what_it_tells(v, step);
    match step {
        Step::Write { offset, data } => {
            let crcs = captured(s.crcs, pages, s.bs(), offset, data);
            lemma_written(v, left, offset, data, crcs);
        },
        Step::Zero { offset, len } => {
            let crcs = captured_zeros(s.crcs, pages, s.bs(), offset, len);
            assert(zeros(len).len() == len);
            lemma_written(v, left, offset, zeros(len), crcs);
        },
        Step::Promote { block } => {
            lemma_promote(v, block);
            lemma_kept(v, w, left);
            assert(next == left);
        },
        Step::Skip { skipped } => {
            lemma_skip(v, skipped);
            lemma_kept(v, w, left);
            assert(next == left);
        },
        Step::Rotate => {
            lemma_rotated(v, left);
        },
        Step::FinishFlush { parts, stored } => {
            lemma_finish(v, parts, stored);
            lemma_kept(v, w, left);
            assert(next == left);
        },
        Step::FailFlush => {
            lemma_fail(v);
            lemma_kept(v, w, left);
            assert(next == left);
        },
        Step::Reopen { .. } => {},
        Step::Compact { chunk, packs, live, base } => {
            lemma_compact(v, chunk, packs, live, base);
            lemma_kept(v, w, left);
            assert(next == left);
        },
    }
}

/// A finished flush is safe before its manifest is synced: no flush cycle touches its file,
/// and without the packs that it has appended its blocks are recovered from that file.
pub proof fn law_unsynced_flush_is_recoverable(
    v: Volume,
    parts: Seq<ChunkFlush>,
    stored: Map<Blake3Hash, Seq<u8>>,
    left: Remains,
)
    requires
        v.sound(),
        allowed(v, (Step::FinishFlush { parts, stored })),
        recoverable(v, left),
        has_packs(v, parts),
    ensures
        start_of(after_finish(v, parts, stored).state, true) == FlushStart::Skip,
        recoverable(after_finish(v, parts, stored), left),
{
    let step = Step::FinishFlush { parts, stored };
    law_steps_stay_recoverable(v, step, left);
    assert(left.entries + Seq::<WalEntry>::empty() =~= left.entries);
    assert(left_by(v, step, left) == left);
}

/// What is left after a history.
pub open spec fn left_after(v: Volume, steps: Seq<Step>, left: Remains) -> Remains
    decreases steps.len(),
{
    if steps.len() == 0 {
        left
    } else {
        let before = steps.drop_last();
        left_by(after_all(v, before), steps.last(), left_after(v, before, left))
    }
}

/// Whether each step of a history may be taken without a checkpoint.
pub open spec fn all_tell(v: Volume, steps: Seq<Step>, left: Remains) -> bool
    decreases steps.len(),
{
    steps.len() > 0 ==> {
        let before = steps.drop_last();
        &&& all_tell(v, before, left)
        &&& step_tells(after_all(v, before), steps.last(), left_after(v, before, left))
    }
}

proof fn lemma_all_recoverable(v: Volume, steps: Seq<Step>, left: Remains)
    requires
        v.sound(),
        all_allowed(v, steps),
        recoverable(v, left),
        all_tell(v, steps, left),
    ensures
        recoverable(after_all(v, steps), left_after(v, steps, left)),
    decreases steps.len(),
{
    if steps.len() > 0 {
        let before = steps.drop_last();
        lemma_all_recoverable(v, before, left);
        law_device_holds_last_written(v, before);
        law_steps_stay_recoverable(
            after_all(v, before),
            steps.last(),
            left_after(v, before, left),
        );
    }
}

/// A crash loses nothing. The cache has been running since a checkpoint, with a flush at
/// most, whose rotation came right after that checkpoint: a rotation needs one before it,
/// since recovery takes the entries of the log for later than the rotation. When the cache
/// is opened again from the metadata of that checkpoint, the log, and the manifest of the
/// checkpoint or of the moment, the device holds what was written last at every byte.
pub proof fn law_crash_loses_nothing(v: Volume, steps: Seq<Step>, left: Remains)
    requires
        v.sound(),
        all_allowed(v, steps),
        recoverable(v, left),
        all_tell(v, steps, left),
    ensures
        ({
            let w = after_all(v, steps);
            let unsynced = left_after(v, steps, left);
            let synced = Remains { chunks: w.chunks, ..unsynced };
            &&& after_reopen(w, unsynced).sound()
            &&& after_reopen(w, unsynced).device() == last_written(v.device(), steps)
            &&& after_reopen(w, synced).sound()
            &&& after_reopen(w, synced).device() == last_written(v.device(), steps)
        }),
{
    let w = after_all(v, steps);
    let unsynced = left_after(v, steps, left);
    let synced = Remains { chunks: w.chunks, ..unsynced };
    lemma_all_recoverable(v, steps, left);
    law_device_holds_last_written(v, steps);
    law_synced_manifest_is_recoverable(w, unsynced);
    law_step_changes_what_it_tells(w, (Step::Reopen { left: unsynced }));
    law_step_changes_what_it_tells(w, (Step::Reopen { left: synced }));
    assert(told(w.device(), (Step::Reopen { left: unsynced })) == w.device());
    assert(told(w.device(), (Step::Reopen { left: synced })) == w.device());
}

} // verus!
