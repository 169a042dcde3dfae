//! What a device holds, wherever its blocks live.
//!
//! A block is read from the active file, from the flushing file or from the packs of
//! its chunk. This module says what a read of the device gives, and how each
//! operation of the cache changes that: a write sets its bytes, and nothing else
//! changes anything.

use vstd::prelude::*;
use vstd::arithmetic::div_mod::{
    lemma_div_is_ordered, lemma_div_nonincreasing, lemma_div_pos_is_pos, lemma_fundamental_div_mod,
    lemma_fundamental_div_mod_converse, lemma_mod_bound,
};
use crate::write_cache::compact::{
    as_views, compacted, flattened, law_compacted_packs_answer_alike, lists_live, live_of,
    LiveBlock, PackIndex,
};
use crate::write_cache::config::{ceil_div, WriteCacheConfig};
use crate::write_cache::consistency::{
    block_bytes, lemma_disjoint, lemma_local_bytes, local_bytes, matching, overlaid, overwritten,
    Files,
};
use crate::write_cache::flush::Blake3Hash;
use crate::write_cache::geometry::{
    block_start, first_block, last_block, lemma_block_on_device, lemma_range_blocks, valid_len,
};
use crate::write_cache::init::{
    lemma_replayed_len, opened_state, recovered_state, recovered_states, recovery_copies, replayed,
    unflushed, written_after_rotation, BlockCopy, Opening,
};
use crate::write_cache::inner::{all_zero, fresh_state, CacheState};
use crate::write_cache::locate::{
    entry_for, newest_entry, stored_at, BlockAt, BlockLocation, FetchEntry, PackView,
};
use crate::write_cache::pack_plan::{
    ids_of, is_pack_of, law_flush_leaves_other_blocks, law_flushed_blocks_are_found,
    lemma_entry_of_pack, lemma_newest_of_prefix, must_append, packs_after, PackInputs,
};
use crate::write_cache::page_crcs::{captured, captured_zeros};
use crate::write_cache::promote::promoted;
use crate::write_cache::read::{
    all_in_active, assembled, blocks_touched, is_block_of, law_assembled_is_device_range,
};
use crate::write_cache::resolve::{
    data_of, filled, law_fetching_completes_a_read, lemma_filled_with, to_fetch, zero_block, Located,
};
use crate::write_cache::rotate::{
    block_copy, dirty_blocks, failed_flush_blocks, flush_ended, flush_finished,
    law_failed_flush_releases_blocks,
    law_flush_keeps_concurrent_writes, law_rotation_claims_all_dirty, lemma_evicted_all,
    needs_copy, on_device, picked, recovered_at, rotation_marked, skipped_blocks,
};
use crate::write_cache::state_map::SparseBlockState;
use crate::write_cache::write::{
    law_claim_range, law_commit_dirties_range, lemma_made_dirty_all, range_claimed, range_dirtied,
    WalEntry,
};

verus! {

/// A device with everything that its contents rest on.
pub struct Volume {
    pub state: CacheState,
    pub files: Files,
    /// The blocks that the running flush has claimed.
    pub snapshot: Seq<usize>,
    /// The packs of each chunk, oldest first, each with its index.
    pub chunks: Map<u32, Seq<PackView>>,
    /// The block that each hash stands for.
    pub stored: Map<Blake3Hash, Seq<u8>>,
    pub blocks_per_chunk: int,
    /// Hash of a zero block.
    pub zero_hash: Blake3Hash,
}

/// `n` zeros.
pub open spec fn zeros(n: int) -> Seq<u8> {
    Seq::new(n as nat, |i: int| 0u8)
}

impl Volume {
    pub open spec fn bs(self) -> int {
        self.state.bs()
    }

    pub open spec fn ds(self) -> int {
        self.state.ds()
    }

    pub open spec fn has(self, block: int) -> bool {
        0 <= block < self.state.num_blocks()
    }

    /// How many bytes of a block lie on the device.
    pub open spec fn valid(self, block: int) -> int {
        valid_len(block, self.bs(), self.ds())
    }

    pub open spec fn chunk_of(self, block: int) -> u32 {
        (block / self.blocks_per_chunk) as u32
    }

    pub open spec fn place_of(self, block: int) -> u32 {
        (block % self.blocks_per_chunk) as u32
    }

    /// The packs of a chunk.
    pub open spec fn packs(self, chunk: u32) -> Seq<PackView> {
        if self.chunks.contains_key(chunk) {
            self.chunks[chunk]
        } else {
            Seq::empty()
        }
    }

    /// What the packs of a chunk say about a place.
    pub open spec fn answer(self, chunk: u32, place: u32) -> Option<BlockAt> {
        newest_entry(self.packs(chunk), self.packs(chunk).len(), place)
    }

    /// What an answer of the packs stands for.
    pub open spec fn data_at(self, answer: Option<BlockAt>) -> Seq<u8> {
        match stored_at(answer) {
            BlockLocation::Stored(at) => self.stored[at.hash],
            _ => zeros(self.bs()),
        }
    }

    /// What a read gets for a block: the local copy if there is one, and otherwise
    /// what the packs have. The latter is a whole block even at the end of the
    /// device.
    pub open spec fn block_data(self, block: int) -> Seq<u8> {
        match local_bytes(self.state, self.files, block) {
            Some(bytes) => bytes,
            None => self.data_at(self.answer(self.chunk_of(block), self.place_of(block))),
        }
    }

    /// The bytes of a block that lie on the device.
    pub open spec fn visible(self, block: int) -> Seq<u8> {
        self.block_data(block).take(self.valid(block))
    }

    /// The contents of the device.
    pub open spec fn device(self) -> Seq<u8> {
        Seq::new(
            self.ds() as nat,
            |i: int| self.visible(i / self.bs())[i % self.bs()],
        )
    }

    /// Whether an answer of the packs can be used: an entry without data stands for
    /// zeros, and any other for a block that is stored.
    pub open spec fn answer_sound(self, answer: Option<BlockAt>) -> bool {
        answer matches Some(at) ==> {
            &&& at.comp_length == 0 <==> at.hash == self.zero_hash
            &&& at.comp_length > 0 ==> self.stored.contains_key(at.hash)
                && self.stored[at.hash].len() == self.bs()
        }
    }

    /// Whether a block is in a state that operations leave it in: not present, dirty
    /// or claimed by the running flush. Where the active file has no data of a block,
    /// it has zeros.
    pub open spec fn block_sound(self, block: int) -> bool {
        let s = self.state;
        let state = s.state(block);
        &&& state == SparseBlockState::NOT_PRESENT || state == SparseBlockState::DIRTY || state
            == SparseBlockState::SYNCING
        &&& state == SparseBlockState::SYNCING ==> s.flushing_open && self.snapshot.contains(
            block as usize,
        )
        &&& state != SparseBlockState::DIRTY ==> all_zero(block_bytes(self.files.active, s, block))
        &&& state == SparseBlockState::NOT_PRESENT && s.flushing_open ==> all_zero(
            block_bytes(self.files.flushing, s, block),
        )
    }

    /// Whether the blocks of the running flush are on the device and present.
    pub open spec fn snapshot_sound(self) -> bool {
        &&& on_device(self.state, self.snapshot)
        &&& self.snapshot.no_duplicates()
        &&& forall|k: int|
            0 <= k < self.snapshot.len() ==> self.state.state(#[trigger] self.snapshot[k] as int)
                != SparseBlockState::NOT_PRESENT
    }

    /// What holds between any two operations.
    pub open spec fn sound(self) -> bool {
        &&& matching(self.state, self.files)
        &&& self.state.num_blocks() <= u32::MAX
        &&& 0 < self.blocks_per_chunk <= u32::MAX
        &&& forall|block: int| self.has(block) ==> #[trigger] self.block_sound(block)
        &&& self.state.flushing_open ==> self.snapshot_sound()
        &&& forall|chunk: u32, place: u32| self.answer_sound(#[trigger] self.answer(chunk, place))
    }
}

/// A block filled up with zeros.
pub open spec fn padded(bytes: Seq<u8>, block_size: int) -> Seq<u8> {
    bytes + zeros(block_size - bytes.len())
}

/// What a flush makes of the blocks of one chunk.
pub struct ChunkFlush {
    pub chunk: u32,
    pub inputs: PackInputs,
    /// Block and hash of each block.
    pub computed: Seq<(usize, Blake3Hash)>,
    pub pack: PackView,
}

/// What a cache is opened again from, besides the data files.
pub struct Remains {
    pub opening: Opening,
    /// The entries of the log.
    pub entries: Seq<WalEntry>,
    /// Whether there is a flushing file.
    pub flushing_exists: bool,
    /// The packs of each chunk that the stored manifest lists.
    pub chunks: Map<u32, Seq<PackView>>,
}

impl Remains {
    /// The states after the log was replayed.
    pub open spec fn states(self) -> Seq<u8> {
        replayed(self.opening.loaded.states@, self.entries)
    }
}

/// An operation of the cache, carried out in full.
pub enum Step {
    /// `data` is written at `offset`: the blocks are claimed, the active file is
    /// written and the write is committed.
    Write { offset: int, data: Seq<u8> },
    /// `len` bytes at `offset` are set to zero in the same way.
    Zero { offset: int, len: int },
    /// A promotion copies a block from the flushing file to the active file and marks
    /// it.
    Promote { block: int },
    /// The flush gives blocks back: they are copied and marked in the same way.
    Skip { skipped: Seq<usize> },
    /// A flush swaps the data files and claims the dirty blocks.
    Rotate,
    /// The flush ends well: its packs are appended and its blocks evicted.
    /// `stored` says what each hash stands for now.
    FinishFlush { parts: Seq<ChunkFlush>, stored: Map<Blake3Hash, Seq<u8>> },
    /// The flush fails: its blocks are copied back.
    FailFlush,
    /// The cache is opened again from what is stored.
    Reopen { left: Remains },
    /// The packs of a chunk are merged.
    Compact { chunk: u32, packs: Seq<PackIndex>, live: Seq<LiveBlock>, base: PackView },
}

/// Whether a range that is written touches a block.
pub open spec fn touches(v: Volume, offset: int, len: int, block: int) -> bool {
    first_block(offset, v.bs()) <= block <= last_block(offset, len, v.bs())
}

/// Whether a range that is written covers all of a block that lies on the device.
pub open spec fn covers(v: Volume, offset: int, len: int, block: int) -> bool {
    offset <= block_start(block, v.bs()) && block_start(block, v.bs()) + v.valid(block) <= offset
        + len
}

/// Whether a range can be written: it lies on the device, no block of it is in the
/// flushing file alone, and a block that it covers in part is present, or holds
/// nothing but zeros. (A caller that needs to write a part of an evicted block first
/// writes the whole block back.)
pub open spec fn write_allowed(v: Volume, offset: int, len: int) -> bool {
    &&& 0 <= offset
    &&& 0 < len
    &&& offset + len <= v.ds()
    &&& forall|block: int|
        #![trigger v.state.state(block)]
        v.has(block) && touches(v, offset, len, block) ==> {
            &&& v.state.state(block) != SparseBlockState::SYNCING
            &&& v.state.state(block) == SparseBlockState::NOT_PRESENT ==> covers(
                v,
                offset,
                len,
                block,
            ) || all_zero(v.visible(block))
        }
}

/// The volume after a write.
pub open spec fn after_write(
    v: Volume,
    offset: int,
    data: Seq<u8>,
    crcs: Map<u32, Seq<u32>>,
) -> Volume {
    let len = data.len() as int;
    Volume {
        state: CacheState {
            crcs,
            ..range_dirtied(range_claimed(v.state, offset, len), offset, len)
        },
        files: Files { active: overwritten(v.files.active, offset, data), ..v.files },
        ..v
    }
}

/// The volume after a block was copied from the flushing file.
pub open spec fn after_promote(v: Volume, block: int) -> Volume {
    Volume {
        state: CacheState {
            blocks: promoted(v.state.blocks, block, SparseBlockState::SYNCING),
            ..v.state
        },
        files: Files {
            active: overwritten(
                v.files.active,
                block_start(block, v.bs()),
                block_bytes(v.files.flushing, v.state, block),
            ),
            ..v.files
        },
        ..v
    }
}

/// The volume after a flush gave blocks back and every copy succeeded.
pub open spec fn after_skip(v: Volume, skipped: Seq<usize>) -> Volume {
    let copied = Seq::new(skipped.len(), |k: int| needs_copy(v.state, skipped[k] as int));
    Volume {
        state: CacheState {
            blocks: skipped_blocks(v.state, skipped, copied),
            ..v.state
        },
        files: Files {
            active: copies_made(
                v.files.active,
                v.files.flushing,
                back_copies(v.state, skipped, skipped.len()),
            ),
            ..v.files
        },
        ..v
    }
}

/// The volume after a rotation. The new active file is empty.
pub open spec fn after_rotate(v: Volume) -> Volume {
    let n = v.state.blocks.states.len();
    Volume {
        state: CacheState {
            blocks: v.state.blocks.claimed_upto(n),
            flushing_open: true,
            ..rotation_marked(v.state)
        },
        files: Files { active: zeros(v.ds()), flushing: v.files.active },
        snapshot: dirty_blocks(v.state.blocks.states, n),
        ..v
    }
}

/// Whether a hash stands for the bytes of a block in the flushing file. That one hash
/// never stands for two blocks is what content addressing rests on.
pub open spec fn hash_tells(
    v: Volume,
    block: int,
    hash: Blake3Hash,
    stored: Map<Blake3Hash, Seq<u8>>,
) -> bool {
    let bytes = block_bytes(v.files.flushing, v.state, block);
    if hash == v.zero_hash {
        all_zero(bytes)
    } else {
        stored.contains_key(hash) && stored[hash] == padded(bytes, v.bs())
    }
}

/// Whether a chunk was flushed as planned: its blocks are of the running flush and
/// have their hashes, and compressed data is never empty.
pub open spec fn part_allowed(
    v: Volume,
    part: ChunkFlush,
    stored: Map<Blake3Hash, Seq<u8>>,
) -> bool {
    &&& is_pack_of(part.inputs, part.computed, v.packs(part.chunk), part.pack)
    &&& part.inputs.zero_hash == v.zero_hash
    &&& part.inputs.blocks_per_chunk == v.blocks_per_chunk
    &&& forall|hash: Blake3Hash| #[trigger]
        part.inputs.uploads.contains_key(hash) ==> part.inputs.uploads[hash]@.len() > 0
    &&& forall|k: int|
        0 <= k < part.computed.len() ==> {
            &&& v.snapshot.contains((#[trigger] part.computed[k]).0)
            &&& v.chunk_of(part.computed[k].0 as int) == part.chunk
            &&& hash_tells(v, part.computed[k].0 as int, part.computed[k].1, stored)
        }
}

/// Whether a chunk's flush evicts a block.
pub open spec fn part_flushes(part: ChunkFlush, block: int) -> bool {
    part.inputs.flushed(part.computed).contains(block as usize)
}

/// Whether a flush can end: what was stored is stored still, every chunk was flushed
/// as planned, and no claimed block is left over.
pub open spec fn finish_allowed(
    v: Volume,
    parts: Seq<ChunkFlush>,
    stored: Map<Blake3Hash, Seq<u8>>,
) -> bool {
    &&& v.state.flushing_open
    &&& forall|hash: Blake3Hash| #[trigger]
        v.stored.contains_key(hash) ==> stored.contains_key(hash) && stored[hash] == v.stored[hash]
    &&& forall|i: int, j: int|
        0 <= i < j < parts.len() ==> (#[trigger] parts[i]).chunk != (#[trigger] parts[j]).chunk
    &&& forall|p: int| 0 <= p < parts.len() ==> part_allowed(v, #[trigger] parts[p], stored)
    &&& forall|block: int|
        v.has(block) && #[trigger] v.state.state(block) == SparseBlockState::SYNCING ==> exists|
            p: int,
        |
            0 <= p < parts.len() && part_flushes(#[trigger] parts[p], block)
}

/// The blocks that a flush evicts.
pub open spec fn all_flushed(parts: Seq<ChunkFlush>) -> Seq<usize>
    decreases parts.len(),
{
    if parts.len() == 0 {
        Seq::empty()
    } else {
        all_flushed(parts.drop_last()) + parts.last().inputs.flushed(parts.last().computed)
    }
}

/// The packs of the chunks after a flush.
pub open spec fn chunks_after(v: Volume, parts: Seq<ChunkFlush>) -> Map<u32, Seq<PackView>>
    decreases parts.len(),
{
    if parts.len() == 0 {
        v.chunks
    } else {
        let part = parts.last();
        chunks_after(v, parts.drop_last()).insert(
            part.chunk,
            packs_after(v.packs(part.chunk), part.pack, part.inputs.items(part.computed)),
        )
    }
}

/// Whether a flush appends packs.
pub open spec fn has_packs(v: Volume, parts: Seq<ChunkFlush>) -> bool {
    exists|p: int|
        0 <= p < parts.len() && must_append(
            (#[trigger] parts[p]).inputs.items(parts[p].computed).len(),
            ids_of(v.packs(parts[p].chunk)),
            parts[p].pack.pack_id,
        )
}

/// The volume after a flush.
pub open spec fn after_finish(
    v: Volume,
    parts: Seq<ChunkFlush>,
    stored: Map<Blake3Hash, Seq<u8>>,
) -> Volume {
    Volume {
        state: flush_finished(v.state, all_flushed(parts), has_packs(v, parts)),
        chunks: chunks_after(v, parts),
        stored,
        ..v
    }
}

/// A file after blocks were copied into it.
pub open spec fn copies_made(file: Seq<u8>, from: Seq<u8>, copies: Seq<BlockCopy>) -> Seq<u8>
    decreases copies.len(),
{
    if copies.len() == 0 {
        file
    } else {
        let copy = copies.last();
        overwritten(
            copies_made(file, from, copies.drop_last()),
            copy.offset as int,
            from.subrange(copy.offset as int, copy.offset + copy.len),
        )
    }
}

/// The copies that bring the first `n` blocks of a list back after a failed flush.
pub open spec fn back_copies(s: CacheState, list: Seq<usize>, n: nat) -> Seq<BlockCopy>
    decreases n,
{
    if n == 0 {
        Seq::empty()
    } else {
        let before = back_copies(s, list, (n - 1) as nat);
        if needs_copy(s, list[n - 1] as int) {
            before.push(block_copy(s, list[n - 1] as int))
        } else {
            before
        }
    }
}

/// The volume after a flush failed and every copy succeeded.
pub open spec fn after_fail(v: Volume) -> Volume {
    let copied = Seq::new(
        v.snapshot.len(),
        |k: int| needs_copy(v.state, v.snapshot[k] as int),
    );
    Volume {
        state: CacheState {
            blocks: failed_flush_blocks(v.state, v.snapshot, copied),
            ..flush_ended(v.state)
        },
        files: Files {
            active: copies_made(
                v.files.active,
                v.files.flushing,
                back_copies(v.state, v.snapshot, v.snapshot.len()),
            ),
            ..v.files
        },
        ..v
    }
}

/// Whether recovery takes a block from the flushing file.
pub open spec fn taken_from_flushing(left: Remains, block: int) -> bool {
    left.flushing_exists && unflushed(left.states()[block]) && !written_after_rotation(
        left.states(),
        left.entries,
        left.opening.loaded.rotation_seq,
        block,
    )
}

/// The volume with the packs that the stored manifest lists.
pub open spec fn with_stored_packs(v: Volume, left: Remains) -> Volume {
    Volume { chunks: left.chunks, ..v }
}

/// What the packs of the stored manifest have of a block.
pub open spec fn packs_hold(v: Volume, left: Remains, block: int) -> Seq<u8> {
    let stored = with_stored_packs(v, left);
    stored.data_at(stored.answer(v.chunk_of(block), v.place_of(block))).take(v.valid(block))
}

/// Whether recovery finds the newest data of a block: where it finds no block there is
/// none, and the packs of the stored manifest have its data; where it takes the block
/// from the flushing file that file has its data; and where it leaves the block in the
/// active file the block is dirty.
pub open spec fn block_recoverable(v: Volume, left: Remains, block: int) -> bool {
    let state = left.states()[block];
    if recovered_state(state, false) == SparseBlockState::NOT_PRESENT {
        v.state.state(block) == SparseBlockState::NOT_PRESENT && packs_hold(v, left, block)
            == v.visible(block)
    } else if taken_from_flushing(left, block) {
        block_bytes(v.files.flushing, v.state, block) == v.visible(block)
    } else {
        unflushed(state) && v.state.state(block) == SparseBlockState::DIRTY
    }
}

/// Whether a cache can be opened again: recovery finds the newest data of each block.
pub open spec fn recoverable(v: Volume, left: Remains) -> bool {
    &&& left.opening.wf()
    &&& left.opening.config == v.state.config
    &&& left.opening.loaded.states@.len() == v.state.num_blocks()
    &&& forall|chunk: u32, place: u32|
        v.answer_sound(#[trigger] with_stored_packs(v, left).answer(chunk, place))
    &&& forall|block: int| v.has(block) ==> #[trigger] block_recoverable(v, left, block)
}

/// The volume after it was opened again.
pub open spec fn after_reopen(v: Volume, left: Remains) -> Volume {
    Volume {
        state: opened_state(left.opening, left.entries, false, left.flushing_exists),
        files: Files {
            active: if left.flushing_exists {
                copies_made(
                    v.files.active,
                    v.files.flushing,
                    recovery_copies(
                        left.states(),
                        left.entries,
                        left.opening.loaded.rotation_seq,
                        v.bs(),
                        v.ds(),
                        left.opening.loaded.states@.len(),
                    ),
                )
            } else {
                v.files.active
            },
            ..v.files
        },
        chunks: left.chunks,
        ..v
    }
}

/// Whether the packs of a chunk were merged: `live` has the newest entry of each
/// place, and the index of the new pack lists just those.
pub open spec fn compact_allowed(
    v: Volume,
    chunk: u32,
    packs: Seq<PackIndex>,
    live: Seq<LiveBlock>,
    base: PackView,
) -> bool {
    &&& v.packs(chunk) == as_views(packs)
    &&& forall|p: int, i: int, j: int|
        0 <= p < packs.len() && 0 <= i < j < packs[p].entries@.len() ==> (
        #[trigger] packs[p].entries@[i]).chunk_offset != (
        #[trigger] packs[p].entries@[j]).chunk_offset
    &&& live_of(live, flattened(packs, packs.len()))
    &&& live.len() > 0 ==> (base.entries matches Some(entries) && lists_live(entries@, live))
}

/// Whether a flush may give blocks back: it is running, and it took them all.
pub open spec fn skip_allowed(v: Volume, skipped: Seq<usize>) -> bool {
    &&& v.state.flushing_open
    &&& forall|k: int| 0 <= k < skipped.len() ==> v.snapshot.contains(#[trigger] skipped[k])
}

/// Whether a step can be taken.
pub open spec fn allowed(v: Volume, step: Step) -> bool {
    match step {
        Step::Write { offset, data } => write_allowed(v, offset, data.len() as int),
        Step::Zero { offset, len } => write_allowed(v, offset, len),
        Step::Promote { block } => v.has(block) && v.state.state(block)
            == SparseBlockState::SYNCING,
        Step::Skip { skipped } => skip_allowed(v, skipped),
        Step::Rotate => !v.state.flushing_open,
        Step::FinishFlush { parts, stored } => finish_allowed(v, parts, stored),
        Step::FailFlush => v.state.flushing_open,
        Step::Reopen { left } => recoverable(v, left),
        Step::Compact { chunk, packs, live, base } => compact_allowed(
            v,
            chunk,
            packs,
            live,
            base,
        ),
    }
}

/// The volume after a step.
pub open spec fn after(v: Volume, step: Step) -> Volume {
    let s = v.state;
    let pages = (s.bs() / 4096) as nat;
    match step {
        Step::Write { offset, data } => after_write(
            v,
            offset,
            data,
            captured(s.crcs, pages, s.bs(), offset, data),
        ),
        Step::Zero { offset, len } => after_write(
            v,
            offset,
            zeros(len),
            captured_zeros(s.crcs, pages, s.bs(), offset, len),
        ),
        Step::Promote { block } => after_promote(v, block),
        Step::Skip { skipped } => after_skip(v, skipped),
        Step::Rotate => after_rotate(v),
        Step::FinishFlush { parts, stored } => after_finish(v, parts, stored),
        Step::FailFlush => after_fail(v),
        Step::Reopen { left } => after_reopen(v, left),
        Step::Compact { chunk, packs, live, base } => Volume {
            chunks: v.chunks.insert(chunk, compacted(live, base)),
            ..v
        },
    }
}

/// The contents of the device after a step, as its users know them.
pub open spec fn told(device: Seq<u8>, step: Step) -> Seq<u8> {
    match step {
        Step::Write { offset, data } => overwritten(device, offset, data),
        Step::Zero { offset, len } => overwritten(device, offset, zeros(len)),
        _ => device,
    }
}

/// Whether a block that is not present stays so.
pub open spec fn stays_absent(v: Volume, w: Volume) -> bool {
    forall|block: int|
        v.has(block) && v.state.state(block) == SparseBlockState::NOT_PRESENT
            ==> #[trigger] w.state.state(block) == SparseBlockState::NOT_PRESENT
}

/// Whether a block that is dirty stays so.
pub open spec fn stays_dirty(v: Volume, w: Volume) -> bool {
    forall|block: int|
        v.has(block) && v.state.state(block) == SparseBlockState::DIRTY
            ==> #[trigger] w.state.state(block) == SparseBlockState::DIRTY
}

/// A block has a local copy exactly if it is present.
pub proof fn lemma_block(v: Volume, block: int)
    requires
        v.sound(),
        v.has(block),
    ensures
        v.block_sound(block),
        0 <= block_start(block, v.bs()),
        0 < v.valid(block) <= v.bs(),
        block_start(block, v.bs()) + v.valid(block) <= v.ds(),
        v.block_data(block) == (if v.state.state(block) == SparseBlockState::NOT_PRESENT {
            v.data_at(v.answer(v.chunk_of(block), v.place_of(block)))
        } else if v.state.state(block) == SparseBlockState::SYNCING {
            block_bytes(v.files.flushing, v.state, block)
        } else {
            block_bytes(v.files.active, v.state, block)
        }),
        v.visible(block).len() == v.valid(block),
        v.state.state(block) != SparseBlockState::NOT_PRESENT ==> v.visible(block)
            == v.block_data(block),
{
    lemma_local_bytes(v.state, v.files, block);
    lemma_block_on_device(block, v.bs(), v.ds());
    assert(v.block_sound(block));
    assert(v.answer_sound(v.answer(v.chunk_of(block), v.place_of(block))));
    if v.state.state(block) != SparseBlockState::NOT_PRESENT {
        assert(v.visible(block) =~= v.block_data(block));
    }
}

/// A write leaves the blocks that lie before or behind it as they are.
proof fn lemma_outside(s: CacheState, file: Seq<u8>, offset: int, data: Seq<u8>, block: int)
    requires
        s.bs() > 0,
        file.len() == s.ds(),
        s.num_blocks() == ceil_div(s.ds(), s.bs()),
        0 <= block < s.num_blocks(),
        block_start(block, s.bs()) + valid_len(block, s.bs(), s.ds()) <= offset || offset
            + data.len() <= block_start(block, s.bs()),
    ensures
        block_bytes(overwritten(file, offset, data), s, block) == block_bytes(file, s, block),
{
    lemma_block_on_device(block, s.bs(), s.ds());
    assert(block_bytes(overwritten(file, offset, data), s, block) =~= block_bytes(file, s, block));
}

proof fn lemma_zeros_overlaid(a: Seq<u8>, b: Seq<u8>, start: int, offset: int, data: Seq<u8>)
    requires
        a.len() == b.len(),
        (all_zero(a) && all_zero(b)) || (offset <= start && start + a.len() <= offset + data.len()),
    ensures
        overlaid(a, start, offset, data) == overlaid(b, start, offset, data),
{
    assert(overlaid(a, start, offset, data) =~= overlaid(b, start, offset, data));
}

pub proof fn lemma_write(v: Volume, offset: int, data: Seq<u8>, crcs: Map<u32, Seq<u32>>)
    requires
        v.sound(),
        write_allowed(v, offset, data.len() as int),
    ensures
        after_write(v, offset, data, crcs).sound(),
        forall|block: int|
            #![trigger after_write(v, offset, data, crcs).visible(block)]
            v.has(block) ==> after_write(v, offset, data, crcs).visible(block) == overlaid(
                v.visible(block),
                block_start(block, v.bs()),
                offset,
                data,
            ),
        forall|block: int|
            #![trigger after_write(v, offset, data, crcs).state.state(block)]
            v.has(block) ==> after_write(v, offset, data, crcs).state.state(block) == (if touches(
                v,
                offset,
                data.len() as int,
                block,
            ) {
                SparseBlockState::DIRTY
            } else {
                v.state.state(block)
            }),
        forall|block: int|
            #![trigger after_write(v, offset, data, crcs).visible(block)]
            v.has(block) && !touches(v, offset, data.len() as int, block) ==> after_write(
                v,
                offset,
                data,
                crcs,
            ).visible(block) == v.visible(block),
{
    let len = data.len() as int;
    let w = after_write(v, offset, data, crcs);
    let s = v.state;
    let plain = range_dirtied(range_claimed(s, offset, len), offset, len);
    law_claim_range(s, offset, len);
    law_commit_dirties_range(range_claimed(s, offset, len), offset, len);
    lemma_range_blocks(offset, len, v.bs(), v.ds());
    assert forall|block: int| v.has(block) implies #[trigger] w.state.state(block) == (if touches(
        v,
        offset,
        len,
        block,
    ) {
        SparseBlockState::DIRTY
    } else {
        s.state(block)
    }) by {
        assert(plain.state(block) == w.state.state(block));
        assert(range_claimed(s, offset, len).state(block) == range_claimed(s, offset, len).state(
            block,
        ));
    }
    assert forall|block: int|
        v.has(block) && !touches(v, offset, len, block) implies #[trigger] block_bytes(
        w.files.active,
        s,
        block,
    ) == block_bytes(v.files.active, s, block) by {
        lemma_block_on_device(block, v.bs(), v.ds());
        if block < first_block(offset, v.bs()) {
            lemma_disjoint(block, first_block(offset, v.bs()), v.bs());
        } else {
            lemma_disjoint(last_block(offset, len, v.bs()), block, v.bs());
        }
        lemma_outside(s, v.files.active, offset, data, block);
    }
    assert forall|block: int| w.has(block) implies #[trigger] w.block_sound(block) by {
        assert(v.block_sound(block));
        assert(w.state.state(block) == w.state.blocks.states[block]);
        assert(block_bytes(w.files.active, w.state, block) == block_bytes(w.files.active, s, block));
        assert(block_bytes(w.files.flushing, w.state, block) == block_bytes(
            v.files.flushing,
            s,
            block,
        ));
    }
    assert forall|chunk: u32, place: u32| w.answer_sound(#[trigger] w.answer(chunk, place)) by {
        assert(v.answer_sound(v.answer(chunk, place)));
    }
    if s.flushing_open {
        assert forall|k: int| 0 <= k < w.snapshot.len() implies w.state.state(
            #[trigger] w.snapshot[k] as int,
        ) != SparseBlockState::NOT_PRESENT by {
            let block = v.snapshot[k];
            assert(block < s.num_blocks());
            assert(s.state(block as int) != SparseBlockState::NOT_PRESENT);
        }
        assert(on_device(w.state, w.snapshot));
    }
    assert(w.sound());
    assert forall|block: int| v.has(block) implies #[trigger] w.visible(block) == overlaid(
        v.visible(block),
        block_start(block, v.bs()),
        offset,
        data,
    ) by {
        let start = block_start(block, v.bs());
        lemma_block(v, block);
        lemma_block(w, block);
        assert(block_bytes(w.files.active, w.state, block) == block_bytes(w.files.active, s, block));
        if touches(v, offset, len, block) {
            let bytes = block_bytes(v.files.active, s, block);
            assert(block_bytes(w.files.active, s, block) =~= overlaid(bytes, start, offset, data));
            if s.state(block) == SparseBlockState::NOT_PRESENT {
                lemma_zeros_overlaid(bytes, v.visible(block), start, offset, data);
            }
        } else {
            if block < first_block(offset, v.bs()) {
                lemma_disjoint(block, first_block(offset, v.bs()), v.bs());
            } else {
                lemma_disjoint(last_block(offset, len, v.bs()), block, v.bs());
            }
            assert(w.block_data(block) == v.block_data(block));
            assert(w.visible(block) =~= overlaid(v.visible(block), start, offset, data));
        }
    }
    assert forall|block: int|
        v.has(block) && !touches(v, offset, len, block) implies #[trigger] w.visible(block)
        == v.visible(block) by {
        lemma_block(v, block);
        lemma_block(w, block);
        assert(block_bytes(w.files.active, w.state, block) == block_bytes(w.files.active, s, block));
        assert(w.block_data(block) == v.block_data(block));
    }
}

pub proof fn lemma_promote(v: Volume, at: int)
    requires
        v.sound(),
        v.has(at),
        v.state.state(at) == SparseBlockState::SYNCING,
    ensures
        after_promote(v, at).sound(),
        forall|block: int|
            #![trigger after_promote(v, at).visible(block)]
            v.has(block) ==> after_promote(v, at).visible(block) == v.visible(block),
        stays_absent(v, after_promote(v, at)),
        stays_dirty(v, after_promote(v, at)),
{
    let w = after_promote(v, at);
    let s = v.state;
    let data = block_bytes(v.files.flushing, s, at);
    lemma_block(v, at);
    assert forall|block: int| v.has(block) && block != at implies #[trigger] block_bytes(
        w.files.active,
        s,
        block,
    ) == block_bytes(v.files.active, s, block) by {
        lemma_block_on_device(block, v.bs(), v.ds());
        if block < at {
            lemma_disjoint(block, at, v.bs());
        } else {
            lemma_disjoint(at, block, v.bs());
        }
        lemma_outside(s, v.files.active, block_start(at, v.bs()), data, block);
    }
    assert(block_bytes(w.files.active, s, at) =~= data);
    assert forall|block: int| v.has(block) implies #[trigger] w.state.state(block) == (if block
        == at {
        SparseBlockState::DIRTY
    } else {
        s.state(block)
    }) by {}
    assert forall|block: int| w.has(block) implies #[trigger] w.block_sound(block) by {
        assert(v.block_sound(block));
        assert(w.state.state(block) == w.state.blocks.states[block]);
        assert(block_bytes(w.files.active, w.state, block) == block_bytes(w.files.active, s, block));
        assert(block_bytes(w.files.flushing, w.state, block) == block_bytes(
            v.files.flushing,
            s,
            block,
        ));
    }
    assert forall|chunk: u32, place: u32| w.answer_sound(#[trigger] w.answer(chunk, place)) by {
        assert(v.answer_sound(v.answer(chunk, place)));
    }
    if s.flushing_open {
        assert forall|k: int| 0 <= k < w.snapshot.len() implies w.state.state(
            #[trigger] w.snapshot[k] as int,
        ) != SparseBlockState::NOT_PRESENT by {
            let block = v.snapshot[k];
            assert(block < s.num_blocks());
            assert(s.state(block as int) != SparseBlockState::NOT_PRESENT);
        }
        assert(on_device(w.state, w.snapshot));
    }
    assert(w.sound());
    assert forall|block: int| v.has(block) implies #[trigger] w.visible(block) == v.visible(
        block,
    ) by {
        lemma_block(v, block);
        lemma_block(w, block);
        assert(block_bytes(w.files.active, w.state, block) == block_bytes(w.files.active, s, block));
        assert(block_bytes(w.files.flushing, w.state, block) == block_bytes(
            v.files.flushing,
            s,
            block,
        ));
        assert(w.block_data(block) == v.block_data(block));
    }
}

pub proof fn lemma_rotate(v: Volume)
    requires
        v.sound(),
        !v.state.flushing_open,
    ensures
        after_rotate(v).sound(),
        forall|block: int|
            #![trigger after_rotate(v).visible(block)]
            v.has(block) ==> after_rotate(v).visible(block) == v.visible(block),
        stays_absent(v, after_rotate(v)),
{
    let w = after_rotate(v);
    let s = v.state;
    law_rotation_claims_all_dirty(s);
    assert forall|block: int| w.has(block) implies #[trigger] w.block_sound(block) by {
        assert(v.block_sound(block));
        lemma_block_on_device(block, v.bs(), v.ds());
        assert(w.state.blocks.states[block] == w.state.state(block));
        assert(w.snapshot.contains(block as usize) <==> s.state(block) == SparseBlockState::DIRTY);
        assert(block_bytes(w.files.flushing, w.state, block) == block_bytes(
            v.files.active,
            s,
            block,
        ));
    }
    assert forall|k: int| 0 <= k < w.snapshot.len() implies w.state.state(
        #[trigger] w.snapshot[k] as int,
    ) != SparseBlockState::NOT_PRESENT by {
        let block = w.snapshot[k];
        assert(block < s.num_blocks());
        assert(w.snapshot.contains(block));
        assert(w.state.blocks.states[block as int] == w.state.state(block as int));
    }
    assert forall|chunk: u32, place: u32| w.answer_sound(#[trigger] w.answer(chunk, place)) by {
        assert(v.answer_sound(v.answer(chunk, place)));
    }
    assert(w.sound());
    assert forall|block: int| v.has(block) implies #[trigger] w.visible(block) == v.visible(
        block,
    ) by {
        lemma_block(v, block);
        lemma_block(w, block);
        assert(w.state.blocks.states[block] == w.state.state(block));
        assert(block_bytes(w.files.flushing, w.state, block) == block_bytes(
            v.files.active,
            s,
            block,
        ));
        assert(w.block_data(block) == v.block_data(block));
    }
}

/// Two blocks of one chunk at one place are the same.
proof fn lemma_same_place(v: Volume, a: int, b: int)
    requires
        v.sound(),
        v.has(a),
        v.has(b),
        v.chunk_of(a) == v.chunk_of(b),
        v.place_of(a) == v.place_of(b),
    ensures
        a == b,
{
    let n = v.blocks_per_chunk;
    lemma_fundamental_div_mod(a, n);
    lemma_fundamental_div_mod(b, n);
    lemma_mod_bound(a, n);
    lemma_mod_bound(b, n);
    lemma_div_nonincreasing(a, n);
    lemma_div_nonincreasing(b, n);
    lemma_div_pos_is_pos(a, n);
    lemma_div_pos_is_pos(b, n);
}

/// Where the flush of a chunk evicts a block, the block is one of its batch whose data
/// is not missing.
proof fn lemma_flushed(inputs: PackInputs, computed: Seq<(usize, Blake3Hash)>, block: usize)
    ensures
        inputs.flushed(computed).contains(block) ==> exists|k: int|
            0 <= k < computed.len() && (#[trigger] computed[k]).0 == block && !(inputs.fate(
                computed[k].0,
                computed[k].1,
            ) is Missing),
    decreases computed.len(),
{
    if computed.len() > 0 {
        let before = computed.drop_last();
        lemma_flushed(inputs, before, block);
        let all = inputs.flushed(computed);
        if all.contains(block) {
            let i = choose|i: int| 0 <= i < all.len() && all[i] == block;
            if i < inputs.flushed(before).len() {
                assert(inputs.flushed(before)[i] == block);
                let k = choose|k: int|
                    0 <= k < before.len() && (#[trigger] before[k]).0 == block && !(inputs.fate(
                        before[k].0,
                        before[k].1,
                    ) is Missing);
                assert(computed[k] == before[k]);
            } else {
                assert(computed[computed.len() - 1].0 == block);
            }
        }
    }
}

/// A block is evicted exactly if the flush of some chunk evicts it.
proof fn lemma_all_flushed(parts: Seq<ChunkFlush>, block: usize)
    ensures
        all_flushed(parts).contains(block) <==> exists|p: int|
            0 <= p < parts.len() && part_flushes(#[trigger] parts[p], block as int),
    decreases parts.len(),
{
    if parts.len() > 0 {
        let before = parts.drop_last();
        let n = parts.len() - 1;
        lemma_all_flushed(before, block);
        let a = all_flushed(before);
        let b = parts[n].inputs.flushed(parts[n].computed);
        let all = all_flushed(parts);
        assert(all == a + b);
        if a.contains(block) {
            let i = choose|i: int| 0 <= i < a.len() && a[i] == block;
            assert(all[i] == block);
            let p = choose|p: int|
                0 <= p < before.len() && part_flushes(#[trigger] before[p], block as int);
            assert(part_flushes(parts[p], block as int));
        }
        if b.contains(block) {
            let i = choose|i: int| 0 <= i < b.len() && b[i] == block;
            assert(all[a.len() + i] == block);
            assert(part_flushes(parts[n], block as int));
        }
        if all.contains(block) {
            let i = choose|i: int| 0 <= i < all.len() && all[i] == block;
            if i < a.len() {
                assert(a[i] == block);
            } else {
                assert(b[i - a.len()] == block);
            }
        }
        if exists|p: int| 0 <= p < parts.len() && part_flushes(#[trigger] parts[p], block as int) {
            let p = choose|p: int|
                0 <= p < parts.len() && part_flushes(#[trigger] parts[p], block as int);
            if p < n {
                assert(part_flushes(before[p], block as int));
            }
        }
    }
}

/// Each chunk that was flushed has its new packs, and the others their old ones.
proof fn lemma_chunks_after(v: Volume, parts: Seq<ChunkFlush>, chunk: u32)
    requires
        forall|i: int, j: int|
            0 <= i < j < parts.len() ==> (#[trigger] parts[i]).chunk != (#[trigger] parts[j]).chunk,
    ensures
        ({
            let w = Volume { chunks: chunks_after(v, parts), ..v };
            &&& forall|p: int|
                0 <= p < parts.len() && (#[trigger] parts[p]).chunk == chunk ==> w.packs(chunk)
                    == packs_after(
                    v.packs(chunk),
                    parts[p].pack,
                    parts[p].inputs.items(parts[p].computed),
                )
            &&& (forall|p: int| 0 <= p < parts.len() ==> (#[trigger] parts[p]).chunk != chunk)
                ==> w.packs(chunk) == v.packs(chunk)
        }),
    decreases parts.len(),
{
    if parts.len() > 0 {
        let before = parts.drop_last();
        let n = parts.len() - 1;
        assert forall|i: int, j: int| 0 <= i < j < before.len() implies (
        #[trigger] before[i]).chunk != (#[trigger] before[j]).chunk by {
            assert(parts[i].chunk != parts[j].chunk);
        }
        lemma_chunks_after(v, before, chunk);
        let w = Volume { chunks: chunks_after(v, parts), ..v };
        let u = Volume { chunks: chunks_after(v, before), ..v };
        if parts[n].chunk != chunk {
            assert(w.packs(chunk) == u.packs(chunk));
            assert forall|p: int| 0 <= p < parts.len() && (#[trigger] parts[p]).chunk
                == chunk implies w.packs(chunk) == packs_after(
                v.packs(chunk),
                parts[p].pack,
                parts[p].inputs.items(parts[p].computed),
            ) by {
                assert(before[p] == parts[p]);
            }
            if forall|p: int| 0 <= p < parts.len() ==> (#[trigger] parts[p]).chunk != chunk {
                assert forall|p: int| 0 <= p < before.len() implies (#[trigger] before[p]).chunk
                    != chunk by {
                    assert(before[p] == parts[p]);
                }
            }
        } else {
            assert forall|p: int| 0 <= p < parts.len() && (#[trigger] parts[p]).chunk
                == chunk implies p == n by {
                if p < n {
                    assert(parts[p].chunk != parts[n].chunk);
                }
            }
        }
    }
}

/// After a flush, every answer of the packs can be used.
proof fn lemma_answers_after(
    v: Volume,
    parts: Seq<ChunkFlush>,
    stored: Map<Blake3Hash, Seq<u8>>,
    chunk: u32,
    place: u32,
)
    requires
        v.sound(),
        finish_allowed(v, parts, stored),
    ensures
        after_finish(v, parts, stored).answer_sound(
            after_finish(v, parts, stored).answer(chunk, place),
        ),
{
    let w = after_finish(v, parts, stored);
    let packs = v.packs(chunk);
    lemma_chunks_after(v, parts, chunk);
    assert(w.packs(chunk) == (Volume { chunks: chunks_after(v, parts), ..v }).packs(chunk));
    assert(v.answer_sound(v.answer(chunk, place)));
    if exists|p: int| 0 <= p < parts.len() && (#[trigger] parts[p]).chunk == chunk {
        let p = choose|p: int| 0 <= p < parts.len() && (#[trigger] parts[p]).chunk == chunk;
        let part = parts[p];
        assert(part_allowed(v, part, stored));
        let items = part.inputs.items(part.computed);
        if must_append(items.len(), ids_of(packs), part.pack.pack_id) {
            let entries = part.pack.entries->Some_0@;
            lemma_newest_of_prefix(packs, part.pack, packs.len(), place);
            if entry_for(entries, place) is Some {
                lemma_entry_of_pack(part.inputs, part.computed, entries, place);
                let entry = entry_for(entries, place)->Some_0;
                let k = choose|k: int|
                    0 <= k < part.computed.len() && (#[trigger] part.computed[k]).1 == entry.hash;
                let block = part.computed[k].0;
                assert(hash_tells(v, block as int, entry.hash, stored));
                let i = choose|i: int| 0 <= i < v.snapshot.len() && v.snapshot[i] == block;
                assert(v.snapshot[i] < v.state.num_blocks());
                lemma_block(v, block as int);
            }
        }
    }
}

pub proof fn lemma_finish(v: Volume, parts: Seq<ChunkFlush>, stored: Map<Blake3Hash, Seq<u8>>)
    requires
        v.sound(),
        finish_allowed(v, parts, stored),
    ensures
        after_finish(v, parts, stored).sound(),
        forall|block: int|
            #![trigger after_finish(v, parts, stored).visible(block)]
            v.has(block) ==> after_finish(v, parts, stored).visible(block) == v.visible(block),
        stays_absent(v, after_finish(v, parts, stored)),
        stays_dirty(v, after_finish(v, parts, stored)),
{
    let w = after_finish(v, parts, stored);
    let s = v.state;
    let flushed = all_flushed(parts);
    assert forall|k: int| 0 <= k < flushed.len() implies #[trigger] flushed[k] < s.num_blocks() by {
        let block = flushed[k];
        assert(flushed.contains(block));
        lemma_all_flushed(parts, block);
        let p = choose|p: int|
            0 <= p < parts.len() && part_flushes(#[trigger] parts[p], block as int);
        assert(part_allowed(v, parts[p], stored));
        lemma_flushed(parts[p].inputs, parts[p].computed, block);
        let k = choose|k: int|
            0 <= k < parts[p].computed.len() && (#[trigger] parts[p].computed[k]).0 == block;
        assert(v.snapshot.contains(block));
        let i = choose|i: int| 0 <= i < v.snapshot.len() && v.snapshot[i] == block;
        assert(v.snapshot[i] < s.num_blocks());
    }
    assert(on_device(s, flushed));
    assert forall|block: int| v.has(block) implies #[trigger] w.state.state(block) == (if s.state(
        block,
    ) == SparseBlockState::SYNCING {
        SparseBlockState::NOT_PRESENT
    } else {
        s.state(block)
    }) by {
        law_flush_keeps_concurrent_writes(s, flushed, block);
        if s.state(block) == SparseBlockState::SYNCING {
            let p = choose|p: int|
                0 <= p < parts.len() && part_flushes(#[trigger] parts[p], block);
            lemma_all_flushed(parts, block as usize);
            assert(part_flushes(parts[p], block as usize as int));
            assert(flushed.contains(block as usize));
            let k = choose|k: int| 0 <= k < flushed.len() && flushed[k] == block as usize;
            assert(flushed[k] == block);
        }
    }
    lemma_evicted_all(s.blocks, flushed);
    assert forall|block: int| w.has(block) implies #[trigger] w.block_sound(block) by {
        assert(v.block_sound(block));
        assert(w.state.state(block) == w.state.blocks.states[block]);
        assert(block_bytes(w.files.active, w.state, block) == block_bytes(v.files.active, s, block));
    }
    assert forall|chunk: u32, place: u32| w.answer_sound(#[trigger] w.answer(chunk, place)) by {
        lemma_answers_after(v, parts, stored, chunk, place);
    }
    assert(w.sound());
    assert forall|block: int| v.has(block) implies #[trigger] w.visible(block) == v.visible(
        block,
    ) by {
        lemma_block(v, block);
        lemma_block(w, block);
        assert(w.state.state(block) == w.state.blocks.states[block]);
        assert(block_bytes(w.files.active, w.state, block) == block_bytes(v.files.active, s, block));
        let chunk = v.chunk_of(block);
        lemma_chunks_after(v, parts, chunk);
        assert(w.packs(chunk) == (Volume { chunks: chunks_after(v, parts), ..v }).packs(chunk));
        if s.state(block) == SparseBlockState::SYNCING {
            lemma_evicted_block(v, parts, stored, block);
        } else if s.state(block) == SparseBlockState::NOT_PRESENT {
            lemma_absent_block(v, parts, stored, block);
        }
    }
}

/// What the packs have of a block that a flush evicts.
proof fn lemma_evicted_block(
    v: Volume,
    parts: Seq<ChunkFlush>,
    stored: Map<Blake3Hash, Seq<u8>>,
    block: int,
)
    requires
        v.sound(),
        finish_allowed(v, parts, stored),
        v.has(block),
        v.state.state(block) == SparseBlockState::SYNCING,
    ensures
        ({
            let w = after_finish(v, parts, stored);
            w.data_at(w.answer(v.chunk_of(block), v.place_of(block))).take(v.valid(block))
                == block_bytes(v.files.flushing, v.state, block)
        }),
{
    let w = after_finish(v, parts, stored);
    let chunk = v.chunk_of(block);
    let bytes = block_bytes(v.files.flushing, v.state, block);
    lemma_block(v, block);
    lemma_answers_after(v, parts, stored, chunk, v.place_of(block));
    let p = choose|p: int| 0 <= p < parts.len() && part_flushes(#[trigger] parts[p], block);
    let part = parts[p];
    assert(part_allowed(v, part, stored));
    lemma_flushed(part.inputs, part.computed, block as usize);
    let k = choose|k: int|
        0 <= k < part.computed.len() && (#[trigger] part.computed[k]).0 == block as usize && !(
        part.inputs.fate(part.computed[k].0, part.computed[k].1) is Missing);
    let hash = part.computed[k].1;
    assert(hash_tells(v, block, hash, stored));
    assert(part.chunk == chunk);
    lemma_chunks_after(v, parts, chunk);
    assert(w.packs(chunk) == (Volume { chunks: chunks_after(v, parts), ..v }).packs(chunk));
    law_flushed_blocks_are_found(
        part.inputs,
        part.computed,
        v.packs(chunk),
        part.pack,
        k,
    );
    let found = w.answer(chunk, v.place_of(block));
    if hash == v.zero_hash {
        assert(w.data_at(found) == zeros(v.bs()));
        assert(zeros(v.bs()).take(v.valid(block)) =~= bytes);
    } else {
        assert(w.data_at(found) == padded(bytes, v.bs()));
        assert(padded(bytes, v.bs()).take(v.valid(block)) =~= bytes);
    }
}

/// What the packs have of a block that is not present does not change.
proof fn lemma_absent_block(
    v: Volume,
    parts: Seq<ChunkFlush>,
    stored: Map<Blake3Hash, Seq<u8>>,
    block: int,
)
    requires
        v.sound(),
        finish_allowed(v, parts, stored),
        v.has(block),
        v.state.state(block) == SparseBlockState::NOT_PRESENT,
    ensures
        ({
            let w = after_finish(v, parts, stored);
            let chunk = v.chunk_of(block);
            let place = v.place_of(block);
            w.data_at(w.answer(chunk, place)) == v.data_at(v.answer(chunk, place))
        }),
{
    let w = after_finish(v, parts, stored);
    let chunk = v.chunk_of(block);
    let place = v.place_of(block);
    lemma_chunks_after(v, parts, chunk);
    assert(w.packs(chunk) == (Volume { chunks: chunks_after(v, parts), ..v }).packs(chunk));
    assert(v.answer_sound(v.answer(chunk, place)));
    if exists|p: int| 0 <= p < parts.len() && (#[trigger] parts[p]).chunk == chunk {
        let p = choose|p: int| 0 <= p < parts.len() && (#[trigger] parts[p]).chunk == chunk;
        let part = parts[p];
        assert(part_allowed(v, part, stored));
        assert forall|i: int| 0 <= i < part.computed.len() implies part.inputs.place(
            (#[trigger] part.computed[i]).0,
        ) != place by {
            let other = part.computed[i].0;
            assert(v.snapshot.contains(other));
            let j = choose|j: int| 0 <= j < v.snapshot.len() && v.snapshot[j] == other;
            assert(v.snapshot[j] < v.state.num_blocks());
            assert(v.state.state(v.snapshot[j] as int) != SparseBlockState::NOT_PRESENT);
            if part.inputs.place(other) == place {
                lemma_same_place(v, other as int, block);
            }
        }
        law_flush_leaves_other_blocks(
            part.inputs,
            part.computed,
            v.packs(chunk),
            part.pack,
            place,
        );
    }
    assert(w.answer(chunk, place) == v.answer(chunk, place));
}

/// The copy of a block tells which block it is of.
proof fn lemma_copy_of(s: CacheState, a: int, b: int)
    requires
        s.bs() > 0,
        s.num_blocks() == ceil_div(s.ds(), s.bs()),
        0 <= a < s.num_blocks(),
        0 <= b < s.num_blocks(),
        block_copy(s, a).offset == block_copy(s, b).offset,
    ensures
        a == b,
{
    lemma_block_on_device(a, s.bs(), s.ds());
    lemma_block_on_device(b, s.bs(), s.ds());
    if a < b {
        lemma_disjoint(a, b, s.bs());
    } else if b < a {
        lemma_disjoint(b, a, s.bs());
    }
}

/// Whether every copy is that of a block of the device.
spec fn whole_blocks(s: CacheState, copies: Seq<BlockCopy>) -> bool {
    forall|i: int| 0 <= i < copies.len() ==> is_whole(s, #[trigger] copies[i])
}

/// Whether a copy is that of a block of the device.
spec fn is_whole(s: CacheState, copy: BlockCopy) -> bool {
    exists|block: int| 0 <= block < s.num_blocks() && copy == #[trigger] block_copy(s, block)
}

/// Copying blocks brings over just those.
proof fn lemma_copies_made(
    s: CacheState,
    file: Seq<u8>,
    from: Seq<u8>,
    copies: Seq<BlockCopy>,
    block: int,
)
    requires
        s.bs() > 0,
        s.num_blocks() == ceil_div(s.ds(), s.bs()),
        file.len() == s.ds(),
        from.len() == s.ds(),
        whole_blocks(s, copies),
        0 <= block < s.num_blocks(),
    ensures
        copies_made(file, from, copies).len() == s.ds(),
        block_bytes(copies_made(file, from, copies), s, block) == if copies.contains(
            block_copy(s, block),
        ) {
            block_bytes(from, s, block)
        } else {
            block_bytes(file, s, block)
        },
    decreases copies.len(),
{
    if copies.len() > 0 {
        let before = copies.drop_last();
        let n = copies.len() - 1;
        assert forall|i: int| 0 <= i < before.len() implies is_whole(s, #[trigger] before[i]) by {
            assert(before[i] == copies[i]);
        }
        assert(is_whole(s, copies[n]));
        lemma_copies_made(s, file, from, before, block);
        let at = choose|at: int|
            0 <= at < s.num_blocks() && copies[n] == #[trigger] block_copy(s, at);
        let made = copies_made(file, from, before);
        let data = from.subrange(copies[n].offset as int, copies[n].offset + copies[n].len);
        lemma_block_on_device(at, s.bs(), s.ds());
        lemma_block_on_device(block, s.bs(), s.ds());
        if at == block {
            assert(copies.contains(block_copy(s, block)));
            assert(block_bytes(copies_made(file, from, copies), s, block) =~= block_bytes(
                from,
                s,
                block,
            ));
        } else {
            if at < block {
                lemma_disjoint(at, block, s.bs());
            } else {
                lemma_disjoint(block, at, s.bs());
            }
            lemma_outside(s, made, copies[n].offset as int, data, block);
            if copies.contains(block_copy(s, block)) {
                let i = choose|i: int| 0 <= i < copies.len() && copies[i] == block_copy(s, block);
                if i == n {
                    lemma_copy_of(s, at, block);
                }
                assert(before[i] == block_copy(s, block));
            }
            if before.contains(block_copy(s, block)) {
                let i = choose|i: int| 0 <= i < before.len() && before[i] == block_copy(s, block);
                assert(copies[i] == block_copy(s, block));
            }
        }
    }
}

/// Which blocks are copied back after a failed flush.
proof fn lemma_back_copies(s: CacheState, list: Seq<usize>, n: nat, block: int)
    requires
        s.bs() > 0,
        s.num_blocks() == ceil_div(s.ds(), s.bs()),
        on_device(s, list),
        n <= list.len(),
        0 <= block < s.num_blocks(),
    ensures
        whole_blocks(s, back_copies(s, list, n)),
        back_copies(s, list, n).contains(block_copy(s, block)) <==> needs_copy(s, block) && exists|
            k: int,
        |
            0 <= k < n && #[trigger] list[k] == block,
    decreases n,
{
    let copies = back_copies(s, list, n);
    if n > 0 {
        let m = (n - 1) as nat;
        let before = back_copies(s, list, m);
        lemma_back_copies(s, list, m, block);
        let last = list[m as int];
        assert(last < s.num_blocks());
        assert forall|i: int| 0 <= i < copies.len() implies is_whole(s, #[trigger] copies[i]) by {
            if i < before.len() {
                assert(copies[i] == before[i]);
            } else {
                assert(copies[i] == block_copy(s, last as int));
            }
        }
        if before.contains(block_copy(s, block)) {
            let i = choose|i: int| 0 <= i < before.len() && before[i] == block_copy(s, block);
            assert(copies[i] == block_copy(s, block));
        }
        if last == block && needs_copy(s, block) {
            assert(copies[before.len() as int] == block_copy(s, block));
        }
        if copies.contains(block_copy(s, block)) {
            let i = choose|i: int| 0 <= i < copies.len() && copies[i] == block_copy(s, block);
            if i < before.len() {
                assert(before[i] == block_copy(s, block));
            } else {
                lemma_copy_of(s, last as int, block);
                assert(list[m as int] == block);
            }
        }
    }
}

pub proof fn lemma_fail(v: Volume)
    requires
        v.sound(),
        v.state.flushing_open,
    ensures
        after_fail(v).sound(),
        forall|block: int|
            #![trigger after_fail(v).visible(block)]
            v.has(block) ==> after_fail(v).visible(block) == v.visible(block),
        stays_absent(v, after_fail(v)),
        stays_dirty(v, after_fail(v)),
{
    let w = after_fail(v);
    let s = v.state;
    let copied = Seq::new(
        v.snapshot.len(),
        |k: int| needs_copy(v.state, v.snapshot[k] as int),
    );
    law_failed_flush_releases_blocks(s, v.snapshot, copied);
    assert(w.files.active.len() == s.ds()) by {
        if s.num_blocks() > 0 {
            lemma_back_copies(s, v.snapshot, v.snapshot.len(), 0);
            lemma_copies_made(
                s,
                v.files.active,
                v.files.flushing,
                back_copies(s, v.snapshot, v.snapshot.len()),
                0,
            );
        } else if v.snapshot.len() > 0 {
            assert(v.snapshot[0] < s.num_blocks());
        }
    }
    assert forall|block: int| v.has(block) implies #[trigger] w.state.state(block) == (if s.state(
        block,
    ) == SparseBlockState::SYNCING {
        SparseBlockState::DIRTY
    } else {
        s.state(block)
    }) && block_bytes(w.files.active, s, block) == (if s.state(block) == SparseBlockState::SYNCING {
        block_bytes(v.files.flushing, s, block)
    } else {
        block_bytes(v.files.active, s, block)
    }) by {
        assert(v.block_sound(block));
        lemma_back_copies(s, v.snapshot, v.snapshot.len(), block);
        lemma_copies_made(
            s,
            v.files.active,
            v.files.flushing,
            back_copies(s, v.snapshot, v.snapshot.len()),
            block,
        );
        let states = failed_flush_blocks(s, v.snapshot, copied).states;
        assert(w.state.state(block) == states[block]);
        if v.snapshot.contains(block as usize) {
            let k = choose|k: int|
                0 <= k < v.snapshot.len() && v.snapshot[k] == block as usize;
            assert(v.snapshot[k] == block);
            assert(s.state(v.snapshot[k] as int) != SparseBlockState::NOT_PRESENT);
            assert(recovered_at(s, v.snapshot, copied, k));
            assert(states[v.snapshot[k] as int] == SparseBlockState::DIRTY);
        }
    }
    assert forall|block: int| w.has(block) implies #[trigger] w.block_sound(block) by {
        assert(v.block_sound(block));
        assert(w.state.state(block) == w.state.blocks.states[block]);
        assert(block_bytes(w.files.active, w.state, block) == block_bytes(w.files.active, s, block));
    }
    assert forall|chunk: u32, place: u32| w.answer_sound(#[trigger] w.answer(chunk, place)) by {
        assert(v.answer_sound(v.answer(chunk, place)));
    }
    assert(w.sound());
    assert forall|block: int| v.has(block) implies #[trigger] w.visible(block) == v.visible(
        block,
    ) by {
        lemma_block(v, block);
        lemma_block(w, block);
        assert(w.state.state(block) == w.state.blocks.states[block]);
        assert(block_bytes(w.files.active, w.state, block) == block_bytes(w.files.active, s, block));
        assert(w.block_data(block) == v.block_data(block));
    }
}

/// Nothing is left out where everything is kept.
proof fn lemma_picked_all(list: Seq<usize>, keep: spec_fn(int) -> bool, n: nat)
    requires
        n <= list.len(),
        forall|k: int| 0 <= k < n ==> #[trigger] keep(k),
    ensures
        picked(list, keep, n) == list.take(n as int),
    decreases n,
{
    if n > 0 {
        let m = (n - 1) as nat;
        lemma_picked_all(list, keep, m);
        assert(keep(m as int));
        assert(picked(list, keep, n) =~= list.take(n as int));
    } else {
        assert(list.take(0) =~= Seq::empty());
    }
}

pub proof fn lemma_skip(v: Volume, skipped: Seq<usize>)
    requires
        v.sound(),
        allowed(v, (Step::Skip { skipped })),
    ensures
        after_skip(v, skipped).sound(),
        forall|block: int|
            #![trigger after_skip(v, skipped).visible(block)]
            v.has(block) ==> after_skip(v, skipped).visible(block) == v.visible(block),
        stays_absent(v, after_skip(v, skipped)),
        stays_dirty(v, after_skip(v, skipped)),
{
    let w = after_skip(v, skipped);
    let s = v.state;
    let copied = Seq::new(skipped.len(), |k: int| needs_copy(v.state, skipped[k] as int));
    let keep = |k: int| !needs_copy(s, skipped[k] as int) || copied[k];
    let copies = back_copies(s, skipped, skipped.len());
    lemma_picked_all(skipped, keep, skipped.len());
    assert(skipped.take(skipped.len() as int) =~= skipped);
    assert forall|k: int| 0 <= k < skipped.len() implies #[trigger] skipped[k] < s.num_blocks()
        && s.state(skipped[k] as int) != SparseBlockState::NOT_PRESENT by {
        assert(v.snapshot.contains(skipped[k]));
        let i = choose|i: int| 0 <= i < v.snapshot.len() && v.snapshot[i] == skipped[k];
        assert(v.snapshot[i] < s.num_blocks());
        assert(s.state(v.snapshot[i] as int) != SparseBlockState::NOT_PRESENT);
    }
    assert(on_device(s, skipped));
    lemma_made_dirty_all(s.blocks, skipped);
    assert(w.state.blocks == s.blocks.made_dirty_all(skipped));
    assert(w.files.active.len() == s.ds()) by {
        if s.num_blocks() > 0 {
            lemma_back_copies(s, skipped, skipped.len(), 0);
            lemma_copies_made(s, v.files.active, v.files.flushing, copies, 0);
        } else if skipped.len() > 0 {
            assert(skipped[0] < s.num_blocks());
        }
    }
    assert forall|block: int| v.has(block) implies #[trigger] w.state.state(block) == (
    if skipped.contains(block as usize) {
        SparseBlockState::DIRTY
    } else {
        s.state(block)
    }) && block_bytes(w.files.active, s, block) == (if skipped.contains(block as usize) && s.state(
        block,
    ) == SparseBlockState::SYNCING {
        block_bytes(v.files.flushing, s, block)
    } else {
        block_bytes(v.files.active, s, block)
    }) by {
        lemma_back_copies(s, skipped, skipped.len(), block);
        lemma_copies_made(s, v.files.active, v.files.flushing, copies, block);
        assert(w.state.state(block) == s.blocks.made_dirty_all(skipped).states[block]);
        if skipped.contains(block as usize) {
            let k = choose|k: int| 0 <= k < skipped.len() && skipped[k] == block as usize;
            assert(skipped[k] == block);
        }
        if exists|k: int| 0 <= k < skipped.len() && #[trigger] skipped[k] == block {
            let k = choose|k: int| 0 <= k < skipped.len() && #[trigger] skipped[k] == block;
            assert(skipped[k] == block as usize);
        }
    }
    assert forall|block: int| w.has(block) implies #[trigger] w.block_sound(block) by {
        assert(v.block_sound(block));
        assert(w.state.state(block) == w.state.blocks.states[block]);
        assert(block_bytes(w.files.active, w.state, block) == block_bytes(w.files.active, s, block));
        assert(block_bytes(w.files.flushing, w.state, block) == block_bytes(
            v.files.flushing,
            s,
            block,
        ));
    }
    assert forall|chunk: u32, place: u32| w.answer_sound(#[trigger] w.answer(chunk, place)) by {
        assert(v.answer_sound(v.answer(chunk, place)));
    }
    assert forall|k: int| 0 <= k < w.snapshot.len() implies w.state.state(
        #[trigger] w.snapshot[k] as int,
    ) != SparseBlockState::NOT_PRESENT by {
        let block = v.snapshot[k];
        assert(block < s.num_blocks());
        assert(s.state(block as int) != SparseBlockState::NOT_PRESENT);
    }
    assert(on_device(w.state, w.snapshot));
    assert(w.sound());
    assert forall|block: int| v.has(block) implies #[trigger] w.visible(block) == v.visible(
        block,
    ) by {
        lemma_block(v, block);
        lemma_block(w, block);
        assert(w.state.state(block) == w.state.blocks.states[block]);
        assert(block_bytes(w.files.active, w.state, block) == block_bytes(w.files.active, s, block));
        assert(block_bytes(w.files.flushing, w.state, block) == block_bytes(
            v.files.flushing,
            s,
            block,
        ));
        if skipped.contains(block as usize) {
            let k = choose|k: int| 0 <= k < skipped.len() && skipped[k] == block as usize;
            assert(s.state(skipped[k] as int) != SparseBlockState::NOT_PRESENT);
        }
        assert(w.block_data(block) == v.block_data(block));
    }
}

/// Which blocks recovery copies.
proof fn lemma_recovery_blocks(
    s: CacheState,
    states: Seq<u8>,
    entries: Seq<WalEntry>,
    rotation_seq: u64,
    n: nat,
    block: int,
)
    requires
        s.bs() > 0,
        s.num_blocks() == ceil_div(s.ds(), s.bs()),
        states.len() == s.num_blocks(),
        n <= states.len(),
        0 <= block < s.num_blocks(),
    ensures
        ({
            let copies = recovery_copies(states, entries, rotation_seq, s.bs(), s.ds(), n);
            &&& whole_blocks(s, copies)
            &&& copies.contains(block_copy(s, block)) <==> block < n && unflushed(states[block])
                && !written_after_rotation(states, entries, rotation_seq, block)
        }),
    decreases n,
{
    let copies = recovery_copies(states, entries, rotation_seq, s.bs(), s.ds(), n);
    if n > 0 {
        let m = (n - 1) as nat;
        let before = recovery_copies(states, entries, rotation_seq, s.bs(), s.ds(), m);
        lemma_recovery_blocks(s, states, entries, rotation_seq, m, block);
        assert forall|i: int| 0 <= i < copies.len() implies is_whole(s, #[trigger] copies[i]) by {
            if i < before.len() {
                assert(copies[i] == before[i]);
            } else {
                assert(copies[i] == block_copy(s, m as int));
            }
        }
        if before.contains(block_copy(s, block)) {
            let i = choose|i: int| 0 <= i < before.len() && before[i] == block_copy(s, block);
            assert(copies[i] == block_copy(s, block));
        }
        if m == block && copies.len() > before.len() {
            assert(copies[before.len() as int] == block_copy(s, block));
        }
        if copies.contains(block_copy(s, block)) {
            let i = choose|i: int| 0 <= i < copies.len() && copies[i] == block_copy(s, block);
            if i < before.len() {
                assert(before[i] == block_copy(s, block));
            } else {
                lemma_copy_of(s, m as int, block);
            }
        }
    }
}

proof fn lemma_reopen(v: Volume, left: Remains)
    requires
        v.sound(),
        recoverable(v, left),
    ensures
        after_reopen(v, left).sound(),
        forall|block: int|
            #![trigger after_reopen(v, left).visible(block)]
            v.has(block) ==> after_reopen(v, left).visible(block) == v.visible(block),
{
    let w = after_reopen(v, left);
    let s = v.state;
    let loaded = left.opening.loaded.states@;
    let states = left.states();
    let seq = left.opening.loaded.rotation_seq;
    lemma_replayed_len(loaded, left.entries);
    let copies = recovery_copies(states, left.entries, seq, s.bs(), s.ds(), loaded.len());
    if left.flushing_exists && s.num_blocks() > 0 {
        lemma_recovery_blocks(s, states, left.entries, seq, loaded.len(), 0);
        lemma_copies_made(s, v.files.active, v.files.flushing, copies, 0);
    }
    if s.num_blocks() == 0 {
        assert(copies =~= Seq::empty());
    }
    assert forall|block: int| v.has(block) implies #[trigger] w.state.state(block)
        == recovered_state(states[block], false) && block_bytes(w.files.active, s, block) == (
    if taken_from_flushing(left, block) {
        block_bytes(v.files.flushing, s, block)
    } else {
        block_bytes(v.files.active, s, block)
    }) by {
        assert(w.state.state(block) == recovered_states(states, false)[block]);
        if left.flushing_exists {
            lemma_recovery_blocks(s, states, left.entries, seq, loaded.len(), block);
            lemma_copies_made(s, v.files.active, v.files.flushing, copies, block);
        }
    }
    assert forall|block: int| w.has(block) implies #[trigger] w.block_sound(block) by {
        assert(v.block_sound(block));
        assert(block_recoverable(v, left, block));
        assert(w.state.state(block) == w.state.blocks.states[block]);
        assert(block_bytes(w.files.active, w.state, block) == block_bytes(w.files.active, s, block));
    }
    assert forall|chunk: u32, place: u32| w.answer_sound(#[trigger] w.answer(chunk, place)) by {
        let stored = with_stored_packs(v, left);
        assert(w.packs(chunk) == stored.packs(chunk));
        assert(v.answer_sound(stored.answer(chunk, place)));
    }
    assert(w.sound());
    assert forall|block: int| v.has(block) implies #[trigger] w.visible(block) == v.visible(
        block,
    ) by {
        let stored = with_stored_packs(v, left);
        lemma_block(v, block);
        lemma_block(w, block);
        assert(block_recoverable(v, left, block));
        assert(w.state.state(block) == w.state.blocks.states[block]);
        assert(block_bytes(w.files.active, w.state, block) == block_bytes(w.files.active, s, block));
        assert(w.packs(w.chunk_of(block)) == stored.packs(v.chunk_of(block)));
        assert(w.answer(w.chunk_of(block), w.place_of(block)) == stored.answer(
            v.chunk_of(block),
            v.place_of(block),
        ));
    }
}

pub proof fn lemma_compact(
    v: Volume,
    chunk: u32,
    packs: Seq<PackIndex>,
    live: Seq<LiveBlock>,
    base: PackView,
)
    requires
        v.sound(),
        compact_allowed(v, chunk, packs, live, base),
    ensures
        ({
            let w = Volume { chunks: v.chunks.insert(chunk, compacted(live, base)), ..v };
            &&& w.sound()
            &&& forall|block: int|
                v.has(block) ==> #[trigger] w.visible(block) == v.visible(block)
        }),
{
    let w = Volume { chunks: v.chunks.insert(chunk, compacted(live, base)), ..v };
    assert forall|block: int| w.has(block) implies #[trigger] w.block_sound(block) by {
        assert(v.block_sound(block));
    }
    assert forall|c: u32, place: u32|
        w.answer_sound(#[trigger] w.answer(c, place)) && w.data_at(w.answer(c, place)) == v.data_at(
            v.answer(c, place),
        ) by {
        assert(v.answer_sound(v.answer(c, place)));
        if c == chunk {
            law_compacted_packs_answer_alike(packs, live, base, place);
            assert(as_views(packs).len() == packs.len());
        }
    }
    if v.state.flushing_open {
        assert(v.snapshot_sound());
    }
    assert(w.sound());
    assert forall|block: int| v.has(block) implies #[trigger] w.visible(block) == v.visible(
        block,
    ) by {
        lemma_block(v, block);
        lemma_block(w, block);
        assert(w.data_at(w.answer(w.chunk_of(block), w.place_of(block))) == v.data_at(
            v.answer(v.chunk_of(block), v.place_of(block)),
        ));
    }
}

/// A byte of the device lies in a block of the device.
proof fn lemma_byte(v: Volume, i: int)
    requires
        v.sound(),
        0 <= i < v.ds(),
    ensures
        v.has(i / v.bs()),
        0 <= i % v.bs() < v.valid(i / v.bs()),
        i == block_start(i / v.bs(), v.bs()) + i % v.bs(),
{
    let block = i / v.bs();
    lemma_range_blocks(i, 1, v.bs(), v.ds());
    lemma_fundamental_div_mod(i, v.bs());
    lemma_mod_bound(i, v.bs());
    assert(v.bs() * block == block * v.bs()) by (nonlinear_arith);
}

/// If the blocks have their old bytes with `data` laid over them, so has the device.
proof fn lemma_device(v: Volume, w: Volume, offset: int, data: Seq<u8>)
    requires
        v.sound(),
        w.sound(),
        w.state.config == v.state.config,
        forall|block: int|
            v.has(block) ==> #[trigger] w.visible(block) == overlaid(
                v.visible(block),
                block_start(block, v.bs()),
                offset,
                data,
            ),
    ensures
        w.device() == overwritten(v.device(), offset, data),
{
    assert forall|i: int| 0 <= i < v.ds() implies #[trigger] w.device()[i] == overwritten(
        v.device(),
        offset,
        data,
    )[i] by {
        lemma_byte(v, i);
        let block = i / v.bs();
        lemma_block(v, block);
        assert(w.visible(block) == overlaid(
            v.visible(block),
            block_start(block, v.bs()),
            offset,
            data,
        ));
    }
    assert(w.device() =~= overwritten(v.device(), offset, data));
}

/// If the blocks are as before, so is the device.
proof fn lemma_same_device(v: Volume, w: Volume)
    requires
        v.sound(),
        w.sound(),
        w.state.config == v.state.config,
        forall|block: int| v.has(block) ==> #[trigger] w.visible(block) == v.visible(block),
    ensures
        w.device() == v.device(),
{
    assert forall|i: int| 0 <= i < v.ds() implies #[trigger] w.device()[i] == v.device()[i] by {
        lemma_byte(v, i);
        assert(w.visible(i / v.bs()) == v.visible(i / v.bs()));
    }
    assert(w.device() =~= v.device());
}

/// Every operation keeps the volume sound and does to the contents of the device what
/// it tells its users: a write sets its bytes, zeroing sets them to zero, and
/// promotion, rotation, giving blocks back, the end of a flush, a failed flush, opening
/// the cache again and compaction change no byte.
pub proof fn law_step_changes_what_it_tells(v: Volume, step: Step)
    requires
        v.sound(),
        allowed(v, step),
    ensures
        after(v, step).sound(),
        after(v, step).device() == told(v.device(), step),
{
    let w = after(v, step);
    let s = v.state;
    let pages = (s.bs() / 4096) as nat;
    match step {
        Step::Write { offset, data } => {
            lemma_write(v, offset, data, captured(s.crcs, pages, s.bs(), offset, data));
            lemma_device(v, w, offset, data);
        },
        Step::Zero { offset, len } => {
            let crcs = captured_zeros(s.crcs, pages, s.bs(), offset, len);
            lemma_write(v, offset, zeros(len), crcs);
            lemma_device(v, w, offset, zeros(len));
        },
        Step::Promote { block } => {
            lemma_promote(v, block);
            lemma_same_device(v, w);
        },
        Step::Skip { skipped } => {
            lemma_skip(v, skipped);
            lemma_same_device(v, w);
        },
        Step::Rotate => {
            lemma_rotate(v);
            lemma_same_device(v, w);
        },
        Step::FinishFlush { parts, stored } => {
            lemma_finish(v, parts, stored);
            lemma_same_device(v, w);
        },
        Step::FailFlush => {
            lemma_fail(v);
            lemma_same_device(v, w);
        },
        Step::Reopen { left } => {
            lemma_reopen(v, left);
            lemma_same_device(v, w);
        },
        Step::Compact { chunk, packs, live, base } => {
            lemma_compact(v, chunk, packs, live, base);
            lemma_same_device(v, w);
        },
    }
}

/// The volume after a history of operations.
pub open spec fn after_all(v: Volume, steps: Seq<Step>) -> Volume
    decreases steps.len(),
{
    if steps.len() == 0 {
        v
    } else {
        after(after_all(v, steps.drop_last()), steps.last())
    }
}

/// Whether each operation of a history could be carried out when its turn came.
pub open spec fn all_allowed(v: Volume, steps: Seq<Step>) -> bool
    decreases steps.len(),
{
    steps.len() > 0 ==> all_allowed(v, steps.drop_last()) && allowed(
        after_all(v, steps.drop_last()),
        steps.last(),
    )
}

/// The contents of a device with every write of a history laid over them, in order.
pub open spec fn last_written(device: Seq<u8>, steps: Seq<Step>) -> Seq<u8>
    decreases steps.len(),
{
    if steps.len() == 0 {
        device
    } else {
        told(last_written(device, steps.drop_last()), steps.last())
    }
}

/// After any history of operations the device holds what was written last at every
/// byte, wherever its blocks live now.
pub proof fn law_device_holds_last_written(v: Volume, steps: Seq<Step>)
    requires
        v.sound(),
        all_allowed(v, steps),
    ensures
        after_all(v, steps).sound(),
        after_all(v, steps).device() == last_written(v.device(), steps),
    decreases steps.len(),
{
    if steps.len() > 0 {
        law_device_holds_last_written(v, steps.drop_last());
        law_step_changes_what_it_tells(after_all(v, steps.drop_last()), steps.last());
    }
}

/// A volume without a past: no block is present, both files are empty and there are no
/// packs.
pub open spec fn fresh_volume(
    config: WriteCacheConfig,
    blocks_per_chunk: int,
    zero_hash: Blake3Hash,
) -> Volume {
    Volume {
        state: fresh_state(config, false),
        files: Files {
            active: zeros(config.device_size as int),
            flushing: zeros(config.device_size as int),
        },
        snapshot: Seq::empty(),
        chunks: Map::empty(),
        stored: Map::empty(),
        blocks_per_chunk,
        zero_hash,
    }
}

/// A read gives back what was written last. On a device that started without a past,
/// after any history of writes, flushes, failed flushes, restarts and compactions, a
/// read puts together, from what it gets for each block, the bytes that were written
/// last in its range, and zeros where nothing was written.
pub proof fn law_read_returns_last_written(
    config: WriteCacheConfig,
    blocks_per_chunk: int,
    zero_hash: Blake3Hash,
    steps: Seq<Step>,
    blocks: Seq<Option<Vec<u8>>>,
    offset: int,
    len: int,
)
    requires
        config.block_size > 0,
        config.spec_num_blocks() <= u32::MAX,
        0 < blocks_per_chunk <= u32::MAX,
        all_allowed(fresh_volume(config, blocks_per_chunk, zero_hash), steps),
        0 <= offset,
        0 < len,
        offset + len <= config.device_size,
        blocks.len() == blocks_touched(offset, len, config.block_size as int),
        forall|i: int|
            0 <= i < blocks.len() ==> ((#[trigger] blocks[i]) matches Some(block) && block@
                == after_all(
                fresh_volume(config, blocks_per_chunk, zero_hash),
                steps,
            ).block_data(first_block(offset, config.block_size as int) + i)),
    ensures
        assembled(blocks, offset, len, config.block_size as int, blocks.len()) == last_written(
            zeros(config.device_size as int),
            steps,
        ).subrange(offset, offset + len),
{
    let v = fresh_volume(config, blocks_per_chunk, zero_hash);
    let w = after_all(v, steps);
    let bs = config.block_size as int;
    lemma_fresh(config, blocks_per_chunk, zero_hash);
    law_device_holds_last_written(v, steps);
    lemma_config(v, steps);
    lemma_range_blocks(offset, len, bs, w.ds());
    assert forall|i: int| 0 <= i < blocks.len() implies ((#[trigger] blocks[i]) matches Some(block)
        && is_block_of(block@, w.device(), first_block(offset, bs) + i, bs)) by {
        lemma_is_block(w, first_block(offset, bs) + i);
    }
    law_assembled_is_device_range(blocks, w.device(), offset, len, bs);
}

/// Whether a block of a read was found where it is: its data on the local disk or in
/// the clean cache, nowhere if it is all zeros, or in a pack under its hash.
pub open spec fn located_as(v: Volume, block: int, located: Located) -> bool {
    match located {
        Located::Data(data) => data@ == v.block_data(block),
        Located::Zero => v.block_data(block) == zeros(v.bs()),
        Located::NeedsFetch { expected_hash, .. } => v.stored.contains_key(expected_hash)
            && v.block_data(block) == v.stored[expected_hash],
    }
}

/// What the packs answer is where a block that is not present is found.
pub proof fn law_answers_locate_blocks(v: Volume, block: int, located: Located)
    requires
        v.sound(),
        v.has(block),
        v.state.state(block) == SparseBlockState::NOT_PRESENT,
        match stored_at(v.answer(v.chunk_of(block), v.place_of(block))) {
            BlockLocation::Stored(at) => match located {
                Located::NeedsFetch { expected_hash, .. } => expected_hash == at.hash,
                Located::Data(data) => data@ == v.stored[at.hash],
                Located::Zero => false,
            },
            _ => located is Zero,
        },
    ensures
        located_as(v, block, located),
{
    lemma_block(v, block);
    assert(v.answer_sound(v.answer(v.chunk_of(block), v.place_of(block))));
}

/// Once what has to be fetched was fetched and filled in, a read has the data of each of
/// its blocks.
pub proof fn law_resolved_blocks_are_the_devices(
    v: Volume,
    first: int,
    located: Seq<Located>,
    blocks: Seq<Option<Vec<u8>>>,
    fetched: Seq<(usize, Vec<u8>)>,
)
    requires
        v.sound(),
        located.len() <= usize::MAX,
        blocks.len() == located.len(),
        forall|i: int|
            0 <= i < located.len() ==> located_as(v, first + i, #[trigger] located[i]) && data_of(
                located[i],
                blocks[i],
                v.state.config.block_size,
            ),
        forall|e: FetchEntry| #[trigger]
            to_fetch(located).contains(e) ==> exists|k: int|
                0 <= k < fetched.len() && #[trigger] fetched[k].0 == e.idx,
        forall|k: int|
            0 <= k < fetched.len() ==> (#[trigger] fetched[k]).0 < located.len() && (
            located[fetched[k].0 as int] matches Located::NeedsFetch { expected_hash, .. }
                && fetched[k].1@ == v.stored[expected_hash]),
    ensures
        filled(blocks, fetched).len() == blocks.len(),
        forall|i: int|
            0 <= i < blocks.len() ==> ((#[trigger] filled(blocks, fetched)[i]) matches Some(block)
                && block@ == v.block_data(first + i)),
{
    law_fetching_completes_a_read(located, blocks, fetched, v.state.config.block_size);
    assert forall|i: int| 0 <= i < blocks.len() implies ((#[trigger] filled(
        blocks,
        fetched,
    )[i]) matches Some(block) && block@ == v.block_data(first + i)) by {
        lemma_filled_with(blocks, fetched, i);
        assert(located_as(v, first + i, located[i]));
        assert(data_of(located[i], blocks[i], v.state.config.block_size));
        let all = filled(blocks, fetched);
        if all[i] == blocks[i] {
            assert(zeros(v.bs()) =~= zero_block(v.state.config.block_size));
        } else {
            let k = choose|k: int|
                0 <= k < fetched.len() && #[trigger] fetched[k].0 == i && all[i] == Some(
                    fetched[k].1,
                );
            assert(fetched[k].0 < located.len());
        }
    }
}

/// A read that the active file serves alone gives the bytes of the device, too.
pub proof fn law_direct_read_is_the_devices(v: Volume, offset: int, len: int)
    requires
        v.sound(),
        0 <= offset,
        0 < len,
        offset + len <= v.ds(),
        all_in_active(v.state, first_block(offset, v.bs()), last_block(offset, len, v.bs())),
    ensures
        v.files.active.subrange(offset, offset + len) == v.device().subrange(offset, offset + len),
{
    let part = v.files.active.subrange(offset, offset + len);
    assert forall|k: int| 0 <= k < len implies #[trigger] part[k] == v.device()[offset + k] by {
        let i = offset + k;
        let block = i / v.bs();
        lemma_byte(v, i);
        lemma_block(v, block);
        lemma_div_is_ordered(offset, i, v.bs());
        lemma_div_is_ordered(i, offset + len - 1, v.bs());
        assert(v.state.blocks.has(block));
        assert(v.visible(block)[i % v.bs()] == v.files.active[i]);
    }
    assert(part =~= v.device().subrange(offset, offset + len));
}

proof fn lemma_is_block(v: Volume, block: int)
    requires
        v.sound(),
        v.has(block),
    ensures
        is_block_of(v.block_data(block), v.device(), block, v.bs()),
{
    lemma_block(v, block);
    assert(v.answer_sound(v.answer(v.chunk_of(block), v.place_of(block))));
    let start = block_start(block, v.bs());
    let part = v.device().subrange(start, start + v.valid(block));
    assert forall|r: int| 0 <= r < v.valid(block) implies part[r] == v.visible(block)[r] by {
        let i = start + r;
        lemma_fundamental_div_mod_converse(i, v.bs(), block, r);
    }
    assert(part =~= v.visible(block));
}

proof fn lemma_fresh(config: WriteCacheConfig, blocks_per_chunk: int, zero_hash: Blake3Hash)
    requires
        config.block_size > 0,
        config.spec_num_blocks() <= u32::MAX,
        0 < blocks_per_chunk <= u32::MAX,
    ensures
        fresh_volume(config, blocks_per_chunk, zero_hash).sound(),
        fresh_volume(config, blocks_per_chunk, zero_hash).device() == zeros(
            config.device_size as int,
        ),
{
    let v = fresh_volume(config, blocks_per_chunk, zero_hash);
    lemma_ceil_div(config.device_size as int, config.block_size as int);
    assert forall|block: int| v.has(block) implies #[trigger] v.block_sound(block) by {
        lemma_block_on_device(block, v.bs(), v.ds());
    }
    assert forall|chunk: u32, place: u32| v.answer_sound(#[trigger] v.answer(chunk, place)) by {}
    assert(v.sound());
    assert forall|i: int| 0 <= i < v.ds() implies #[trigger] v.device()[i] == 0 by {
        lemma_byte(v, i);
        lemma_block(v, i / v.bs());
        assert(v.answer(v.chunk_of(i / v.bs()), v.place_of(i / v.bs())) is None);
    }
    assert(v.device() =~= zeros(config.device_size as int));
}

proof fn lemma_ceil_div(a: int, b: int)
    requires
        a >= 0,
        b > 0,
    ensures
        ceil_div(a, b) >= 0,
{
    lemma_div_pos_is_pos(a, b);
}

/// No operation changes the configuration.
proof fn lemma_config(v: Volume, steps: Seq<Step>)
    requires
        all_allowed(v, steps),
    ensures
        after_all(v, steps).state.config == v.state.config,
    decreases steps.len(),
{
    if steps.len() > 0 {
        lemma_config(v, steps.drop_last());
    }
}

} // verus!
