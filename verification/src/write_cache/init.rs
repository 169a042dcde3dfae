//! Opening a cache and recovering the blocks of the previous session.

use std::collections::HashSet;
use std::marker::PhantomData;
use vstd::prelude::*;
use vstd::string::StringExecFns;
use crate::write_cache::blocks::{law_counters_follow_states, BlockTable, Blocks};
use crate::write_cache::config::{ceil_div, WriteCacheConfig};
use crate::write_cache::error::{CacheError, IoError, IoErrorKind};
use crate::write_cache::geometry::{
    block_start, first_block, last_block, lemma_block_on_device, lemma_range_blocks, valid_bytes,
    valid_len,
};
use crate::write_cache::inner::{fresh_state, usable_config, CacheInner, CacheState};
use crate::write_cache::metadata::{
    is_old_version, is_short_file, le32_at, load_metadata, loaded_from, metadata_verdict,
    LoadedMetadata, MetadataVerdict,
};
use crate::write_cache::state_map::{count_state, lemma_count_bounds, SparseBlockState};
use crate::write_cache::write::{
    law_commit_dirties_range, law_log_covers_new_dirty_blocks, range_dirtied, range_entries,
    WalEntry,
};
use crate::write_cache::{Active, Initializing, Recovering, WriteCache};

verus! {

/// A cache whose metadata has been read and whose WAL is to be replayed.
pub struct Opening {
    pub config: WriteCacheConfig,
    pub loaded: LoadedMetadata,
}

/// A copy of one block from the flushing file to the active file.
#[derive(Clone, Copy, Debug, PartialEq, Eq, Structural)]
pub struct BlockCopy {
    pub offset: u64,
    pub len: usize,
}

/// An opened cache, with the file work that its recovery asks for.
pub struct Opened {
    pub cache: WriteCache<Recovering>,
    /// Whether the WAL is to be rewritten with the replayed entries alone,
    /// which drops a torn tail.
    pub rewrite_wal: bool,
    /// Blocks to copy from the flushing file to the active file.
    pub copies: Vec<BlockCopy>,
    /// Whether the flushing file is to be removed after the copies.
    pub remove_flushing: bool,
}

/// What to do after an attempt to open the WAL.
pub enum WalOpenAction {
    /// The WAL is open.
    Proceed,
    /// Remove the file and try once more.
    RemoveAndRetry,
    /// Give up.
    Fail(CacheError),
}

/// Decides what to do after an attempt to open the WAL at `path`. A lock held by
/// another process is final; any other failure is met once by a fresh file,
/// where `may_recreate` allows it.
pub fn after_wal_open(
    attempt: Result<(), IoError>,
    path: String,
    may_recreate: bool,
) -> (action: WalOpenAction)
    ensures
        match attempt {
            Ok(()) => action is Proceed,
            Err(e) => if e.kind == IoErrorKind::WouldBlock {
                action == WalOpenAction::Fail(CacheError::Locked(path))
            } else if may_recreate {
                action is RemoveAndRetry
            } else {
                action == WalOpenAction::Fail(CacheError::Io(e))
            },
        },
{
    match attempt {
        Ok(()) => WalOpenAction::Proceed,
        Err(e) => if e.kind == IoErrorKind::WouldBlock {
            WalOpenAction::Fail(CacheError::Locked(path))
        } else if may_recreate {
            WalOpenAction::RemoveAndRetry
        } else {
            WalOpenAction::Fail(CacheError::Io(e))
        },
    }
}

/// Entries with a sequence number above this one are replayed. After a crash in
/// mid-flush, those since the rotation are, since the active file holds their
/// data.
pub open spec fn replay_min_seq(rotation_seq: u64, max_sequence: u64) -> u64 {
    if 0 < rotation_seq < max_sequence {
        rotation_seq
    } else {
        max_sequence
    }
}

/// The states after the entries of a log were replayed: each block of the device
/// that was written is dirty.
pub open spec fn replayed(states: Seq<u8>, entries: Seq<WalEntry>) -> Seq<u8>
    decreases entries.len(),
{
    if entries.len() == 0 {
        states
    } else {
        let before = replayed(states, entries.drop_last());
        if entries.last().block_index < states.len() {
            before.update(entries.last().block_index as int, SparseBlockState::DIRTY)
        } else {
            before
        }
    }
}

/// The blocks after the entries of a log were replayed, with their counters.
pub open spec fn blocks_replayed(blocks: Blocks, entries: Seq<WalEntry>) -> Blocks
    decreases entries.len(),
{
    if entries.len() == 0 {
        blocks
    } else {
        let before = blocks_replayed(blocks, entries.drop_last());
        if entries.last().block_index < blocks.states.len() {
            before.made_dirty(entries.last().block_index as int)
        } else {
            before
        }
    }
}

/// The highest of a sequence number and those of a log.
pub open spec fn max_seq(sequence: u64, entries: Seq<WalEntry>) -> u64
    decreases entries.len(),
{
    if entries.len() == 0 {
        sequence
    } else {
        let before = max_seq(sequence, entries.drop_last());
        if entries.last().sequence > before {
            entries.last().sequence
        } else {
            before
        }
    }
}

/// Whether some entry of a log is of the block.
pub open spec fn logged(entries: Seq<WalEntry>, block: int) -> bool {
    exists|i: int| 0 <= i < entries.len() && (#[trigger] entries[i]).block_index == block
}

/// Whether the newest data of a block was written after the files were rotated,
/// and is therefore in the active file, even if it is all zeros. Metadata from
/// before the rotation knows no later write, so only the log tells.
pub open spec fn written_after_rotation(
    states: Seq<u8>,
    entries: Seq<WalEntry>,
    rotation_seq: u64,
    block: int,
) -> bool {
    logged(entries, block) || (rotation_seq > 0 && states[block] == SparseBlockState::DIRTY)
}

/// Whether a block holds data that object storage does not have yet.
pub open spec fn unflushed(state: u8) -> bool {
    state == SparseBlockState::DIRTY || state == SparseBlockState::SYNCING
}

/// The copies, among the first `n` blocks, of the data that only the flushing
/// file has.
pub open spec fn recovery_copies(
    states: Seq<u8>,
    entries: Seq<WalEntry>,
    rotation_seq: u64,
    block_size: int,
    device_size: int,
    n: nat,
) -> Seq<BlockCopy>
    decreases n,
{
    if n == 0 {
        Seq::empty()
    } else {
        let before = recovery_copies(
            states,
            entries,
            rotation_seq,
            block_size,
            device_size,
            (n - 1) as nat,
        );
        if unflushed(states[n - 1]) && !written_after_rotation(
            states,
            entries,
            rotation_seq,
            n - 1,
        ) {
            before.push(
                BlockCopy {
                    offset: block_start(n - 1, block_size) as u64,
                    len: valid_len(n - 1, block_size, device_size) as usize,
                },
            )
        } else {
            before
        }
    }
}

/// The state of a block after recovery. A claim without committed data is given
/// up, so that reads go to object storage. A block that a flush had claimed is
/// dirty again, unless a predecessor is still flushing it.
pub open spec fn recovered_state(state: u8, keep_syncing: bool) -> u8 {
    if state == SparseBlockState::CLEAN {
        SparseBlockState::NOT_PRESENT
    } else if state == SparseBlockState::SYNCING && !keep_syncing {
        SparseBlockState::DIRTY
    } else {
        state
    }
}

/// The states after recovery.
pub open spec fn recovered_states(states: Seq<u8>, keep_syncing: bool) -> Seq<u8> {
    Seq::new(states.len(), |i: int| recovered_state(states[i], keep_syncing))
}

/// The state of a cache that was opened from `loaded` with the given log. The
/// counters say how many blocks are dirty and how many a flush has claimed. Only
/// in passive mode can there be claimed blocks: those that the predecessor is
/// flushing.
pub open spec fn opened_state(
    opening: Opening,
    entries: Seq<WalEntry>,
    passive: bool,
    flushing_exists: bool,
) -> CacheState {
    let states = recovered_states(
        replayed(opening.loaded.states@, entries),
        passive && flushing_exists,
    );
    CacheState {
        blocks: Blocks {
            states,
            dirty: count_state(states, SparseBlockState::DIRTY) as u64,
            syncing: count_state(states, SparseBlockState::SYNCING) as u64,
        },
        sequence: max_seq(opening.loaded.max_sequence, entries),
        ..fresh_state(opening.config, passive)
    }
}

/// The text of the error for a log that cannot be replayed.
pub open spec fn replay_failed_text(reason: Seq<char>) -> Seq<char> {
    "WAL replay failed, refusing to open cache: "@ + reason
}

pub proof fn lemma_replayed_len(states: Seq<u8>, entries: Seq<WalEntry>)
    ensures
        replayed(states, entries).len() == states.len(),
    decreases entries.len(),
{
    if entries.len() > 0 {
        lemma_replayed_len(states, entries.drop_last());
    }
}

fn replay_failed(reason: &str) -> (e: CacheError)
    ensures
        e matches CacheError::Io(io) && io.kind == IoErrorKind::Other && io.message@
            == replay_failed_text(reason@),
{
    CacheError::Io(
        IoError {
            kind: IoErrorKind::Other,
            message: String::from_str("WAL replay failed, refusing to open cache: ").concat(reason),
        },
    )
}

impl WriteCache<Initializing> {
    /// Open a write cache: check the configuration and read the metadata file,
    /// if there is one. The WAL is to be replayed next.
    pub fn open(config: WriteCacheConfig, metadata: Option<&Vec<u8>>) -> (result: Result<
        Opening,
        CacheError,
    >)
        requires
            config.block_size > 0 ==> config.spec_num_blocks() <= u32::MAX,
        ensures
            open_outcome(config, metadata, result),
    {
        match config.validate() {
            Err(e) => Err(e),
            Ok(()) => match load_metadata(&config, metadata) {
                Err(e) => Err(e),
                Ok(loaded) => Ok(Opening { config, loaded }),
            },
        }
    }

    /// Create a fresh write cache in Active state (for forks).
    ///
    /// Unlike `open()`, this skips WAL replay and goes directly to Active. The
    /// local cache starts empty.
    pub fn open_fresh_active(config: WriteCacheConfig, passive: bool) -> (result: Result<
        WriteCache<Active>,
        CacheError,
    >)
        requires
            config.block_size > 0 ==> config.spec_num_blocks() <= u32::MAX,
        ensures
            match result {
                Ok(cache) => config.block_size > 0 && config.device_size > 0 && cache.wf()
                    && cache@ == fresh_state(config, passive),
                Err(e) => (config.block_size == 0 || config.device_size == 0) && e
                    == CacheError::InvalidMetadata,
            },
    {
        match config.validate() {
            Err(e) => Err(e),
            Ok(()) => Ok(
                WriteCache { inner: CacheInner::fresh(config, passive), _state: PhantomData },
            ),
        }
    }
}

/// What reading the metadata of a cache comes to.
pub open spec fn open_outcome(
    config: WriteCacheConfig,
    metadata: Option<&Vec<u8>>,
    result: Result<Opening, CacheError>,
) -> bool {
    if config.block_size == 0 || config.device_size == 0 {
        result matches Err(e) && e == CacheError::InvalidMetadata
    } else {
        match metadata {
            None => result matches Ok(opening) && opening.wf() && opening.config == config
                && opening.loaded.states@ == Seq::new(
                config.spec_num_blocks() as nat,
                |i: int| SparseBlockState::NOT_PRESENT,
            ) && opening.loaded.dirty_count == 0 && opening.loaded.max_sequence == 0
                && opening.loaded.rotation_seq == 0,
            Some(bytes) => match metadata_verdict(
                bytes@,
                config.block_size as u64,
                config.device_size,
            ) {
                MetadataVerdict::Short => result matches Err(e) && is_short_file(e),
                MetadataVerdict::Invalid => result matches Err(e) && e
                    == CacheError::InvalidMetadata,
                MetadataVerdict::OldVersion => result matches Err(e) && is_old_version(
                    e,
                    le32_at(bytes@, 8),
                ),
                MetadataVerdict::Good => result matches Ok(opening) && opening.wf()
                    && opening.config == config && loaded_from(
                    opening.loaded,
                    bytes@,
                    config.spec_num_blocks() as nat,
                ),
            },
        }
    }
}

impl Opening {
    /// The states cover the device.
    pub open spec fn wf(&self) -> bool {
        &&& usable_config(self.config)
        &&& self.loaded.states.wf()
        &&& self.loaded.states@.len() == self.config.spec_num_blocks()
        &&& self.loaded.dirty_count <= usize::MAX / 5
    }

    /// Entries with a higher sequence number than this one are to be replayed.
    pub fn wal_min_seq(&self) -> (min_seq: u64)
        ensures
            min_seq == replay_min_seq(self.loaded.rotation_seq, self.loaded.max_sequence),
    {
        if self.loaded.rotation_seq > 0 && self.loaded.rotation_seq < self.loaded.max_sequence {
            self.loaded.rotation_seq
        } else {
            self.loaded.max_sequence
        }
    }

    /// Replays the WAL and recovers the blocks of the previous session.
    ///
    /// `wal` is what reading the log from `wal_min_seq()` on gave: its entries,
    /// or why it could not be read. In `passive` mode a predecessor still owns
    /// the files, so neither the WAL nor a flushing file is touched.
    pub fn recover(
        self,
        wal: Result<&Vec<WalEntry>, &str>,
        passive: bool,
        flushing_exists: bool,
    ) -> (result: Result<Opened, CacheError>)
        requires
            self.wf(),
        ensures
            match wal {
                Err(reason) => result matches Err(CacheError::Io(io)) && io.kind
                    == IoErrorKind::Other && io.message@ == replay_failed_text(reason@),
                Ok(entries) => result matches Ok(opened) && opened.cache.wf() && opened.cache@
                    == opened_state(self, entries@, passive, flushing_exists)
                    && opened.rewrite_wal == !passive && opened.remove_flushing == (
                flushing_exists && !passive) && opened.copies@ == if flushing_exists && !passive {
                    recovery_copies(
                        replayed(self.loaded.states@, entries@),
                        entries@,
                        self.loaded.rotation_seq,
                        self.config.block_size as int,
                        self.config.device_size as int,
                        self.loaded.states@.len(),
                    )
                } else {
                    Seq::empty()
                },
            },
    {
        let entries: &Vec<WalEntry> = match wal {
            Err(reason) => {
                return Err(replay_failed(reason));
            },
            Ok(entries) => entries,
        };
        let ghost opening = self;
        let ghost states0 = self.loaded.states@;
        let mut states = self.loaded.states;
        let rotation_seq: u64 = self.loaded.rotation_seq;
        let num_blocks: usize = states.len();
        let mut sequence: u64 = self.loaded.max_sequence;
        let mut in_log: HashSet<usize> = HashSet::new();
        let mut i: usize = 0;
        while i < entries.len()
            invariant
                i <= entries@.len(),
                states.wf(),
                states@.len() == num_blocks,
                states0.len() == num_blocks,
                num_blocks <= u32::MAX,
                states@ == replayed(states0, entries@.take(i as int)),
                sequence == max_seq(opening.loaded.max_sequence, entries@.take(i as int)),
                forall|block: usize|
                    block < num_blocks ==> in_log@.contains(block) == #[trigger] logged(
                        entries@.take(i as int),
                        block as int,
                    ),
            decreases entries@.len() - i,
        {
            broadcast use vstd::std_specs::hash::group_hash_axioms;

            let entry: WalEntry = entries[i];
            let ghost before = entries@.take(i as int);
            let ghost upto = entries@.take(i + 1);
            proof {
                assert(upto.drop_last() =~= before);
                assert(upto.last() == entry);
                lemma_replayed_len(states0, before);
            }
            if entry.sequence > sequence {
                sequence = entry.sequence;
            }
            let ghost log0 = in_log@;
            if entry.block_index < num_blocks as u64 {
                let block: usize = entry.block_index as usize;
                if states.get(block) != SparseBlockState::DIRTY {
                    let _ = states.transition_to_dirty(block);
                }
                let _ = in_log.insert(block);
                assert(states@ =~= replayed(states0, upto));
            }
            proof {
                assert forall|block: usize| block < num_blocks implies in_log@.contains(block)
                    == #[trigger] logged(upto, block as int) by {
                    assert(log0.contains(block) == logged(before, block as int));
                    if logged(before, block as int) {
                        let j = choose|j: int|
                            0 <= j < before.len() && (#[trigger] before[j]).block_index
                                == block as int;
                        assert(upto[j].block_index == block as int);
                    }
                    if logged(upto, block as int) && entry.block_index != block {
                        let j = choose|j: int|
                            0 <= j < upto.len() && (#[trigger] upto[j]).block_index
                                == block as int;
                        assert(before[j].block_index == block as int);
                    }
                    if entry.block_index == block {
                        assert(upto[i as int].block_index == block as int);
                    }
                }
            }
            i = i + 1;
        }
        assert(entries@.take(i as int) =~= entries@);
        let ghost states1 = states@;
        let recover_files: bool = flushing_exists && !passive;
        let keep_syncing: bool = flushing_exists && passive;
        let mut copies: Vec<BlockCopy> = Vec::new();
        let ghost recovered = recovered_states(states1, keep_syncing);
        let mut dirty_count: u64 = 0;
        let mut syncing_count: u64 = 0;
        let mut block: usize = 0;
        while block < num_blocks
            invariant
                block <= num_blocks,
                usable_config(self.config),
                num_blocks == self.config.spec_num_blocks(),
                num_blocks <= u32::MAX,
                rotation_seq == opening.loaded.rotation_seq,
                states.wf(),
                states1.len() == num_blocks,
                states@.len() == num_blocks,
                recovered == recovered_states(states1, keep_syncing),
                dirty_count <= block,
                syncing_count <= block,
                dirty_count == count_state(recovered.take(block as int), SparseBlockState::DIRTY),
                syncing_count == count_state(
                    recovered.take(block as int),
                    SparseBlockState::SYNCING,
                ),
                forall|b: int|
                    0 <= b < block ==> #[trigger] states@[b] == recovered_state(
                        states1[b],
                        keep_syncing,
                    ),
                forall|b: int| block <= b < num_blocks ==> #[trigger] states@[b] == states1[b],
                forall|b: usize|
                    b < num_blocks ==> in_log@.contains(b) == #[trigger] logged(
                        entries@,
                        b as int,
                    ),
                copies@ == if recover_files {
                    recovery_copies(
                        states1,
                        entries@,
                        rotation_seq,
                        self.config.block_size as int,
                        self.config.device_size as int,
                        block as nat,
                    )
                } else {
                    Seq::empty()
                },
            decreases num_blocks - block,
        {
            broadcast use vstd::std_specs::hash::group_hash_axioms;

            let state: u8 = states.get(block);
            assert(recovered.take(block + 1).drop_last() =~= recovered.take(block as int));
            assert(in_log@.contains(block) == logged(entries@, block as int));
            if state == SparseBlockState::DIRTY || state == SparseBlockState::SYNCING {
                let after_rotation: bool = in_log.contains(&block) || (rotation_seq > 0 && state
                    == SparseBlockState::DIRTY);
                if recover_files && !after_rotation {
                    proof {
                        lemma_block_on_device(
                            block as int,
                            self.config.block_size as int,
                            self.config.device_size as int,
                        );
                    }
                    copies.push(
                        BlockCopy {
                            offset: block as u64 * self.config.block_size as u64,
                            len: valid_bytes(
                                block as u64,
                                self.config.block_size,
                                self.config.device_size,
                            ),
                        },
                    );
                }
                if !keep_syncing {
                    let _ = states.cas(block, SparseBlockState::SYNCING, SparseBlockState::DIRTY);
                }
                if keep_syncing && state == SparseBlockState::SYNCING {
                    syncing_count = syncing_count + 1;
                } else {
                    dirty_count = dirty_count + 1;
                }
            } else if state == SparseBlockState::CLEAN {
                let _ = states.cas(block, SparseBlockState::CLEAN, SparseBlockState::NOT_PRESENT);
            }
            block = block + 1;
        }
        assert(recovered.take(block as int) =~= recovered);
        let mut inner = CacheInner::fresh(self.config, passive);
        inner.blocks =
        BlockTable {
            map: states,
            dirty_block_count: dirty_count,
            syncing_block_count: syncing_count,
        };
        inner.sequence = sequence;
        assert(inner.blocks@.states =~= recovered);
        Ok(
            Opened {
                cache: WriteCache { inner, _state: PhantomData },
                rewrite_wal: !passive,
                copies,
                remove_flushing: recover_files,
            },
        )
    }
}

pub proof fn lemma_replayed(states: Seq<u8>, entries: Seq<WalEntry>, block: int)
    requires
        0 <= block < states.len(),
    ensures
        replayed(states, entries).len() == states.len(),
        replayed(states, entries)[block] == if logged(entries, block) {
            SparseBlockState::DIRTY
        } else {
            states[block]
        },
    decreases entries.len(),
{
    if entries.len() > 0 {
        let before = entries.drop_last();
        lemma_replayed(states, before, block);
        if logged(before, block) {
            let j = choose|j: int|
                0 <= j < before.len() && (#[trigger] before[j]).block_index == block;
            assert(entries[j].block_index == block);
        }
        if logged(entries, block) && entries.last().block_index != block {
            let j = choose|j: int|
                0 <= j < entries.len() && (#[trigger] entries[j]).block_index == block;
            assert(before[j].block_index == block);
        }
        if entries.last().block_index == block {
            assert(entries[entries.len() - 1].block_index == block);
        }
    }
}

/// Recovery loses no write: a block that had unflushed data in the metadata or
/// an entry in the log is still unflushed, and dirty unless a predecessor is
/// flushing it. It also makes nothing up: a block without either is unflushed in
/// no case, and no half-claimed block survives.
pub proof fn law_recovery_keeps_unflushed(
    states: Seq<u8>,
    entries: Seq<WalEntry>,
    keep_syncing: bool,
    block: int,
)
    requires
        0 <= block < states.len(),
    ensures
        ({
            let after = recovered_states(replayed(states, entries), keep_syncing)[block];
            &&& unflushed(after) <==> unflushed(states[block]) || logged(entries, block)
            &&& logged(entries, block) ==> after == SparseBlockState::DIRTY
            &&& !keep_syncing ==> after != SparseBlockState::SYNCING
            &&& after != SparseBlockState::CLEAN
        }),
{
    lemma_replayed(states, entries, block);
}

/// Where a copy of the block stands among the copies of the first `n` blocks.
proof fn lemma_recovery_copies(
    states: Seq<u8>,
    entries: Seq<WalEntry>,
    rotation_seq: u64,
    block_size: int,
    device_size: int,
    n: nat,
    block: int,
)
    requires
        block_size > 0,
        n <= states.len(),
        0 <= block < states.len(),
        0 <= device_size <= u64::MAX,
        states.len() == ceil_div(device_size, block_size),
    ensures
        (exists|i: int|
            0 <= i < recovery_copies(states, entries, rotation_seq, block_size, device_size, n).len()
                && (#[trigger] recovery_copies(
                states,
                entries,
                rotation_seq,
                block_size,
                device_size,
                n,
            )[i]).offset == block_start(block, block_size)) <==> block < n && unflushed(
            states[block],
        ) && !written_after_rotation(states, entries, rotation_seq, block),
    decreases n,
{
    if n > 0 {
        let m = (n - 1) as nat;
        lemma_recovery_copies(
            states,
            entries,
            rotation_seq,
            block_size,
            device_size,
            m,
            block,
        );
        let before = recovery_copies(states, entries, rotation_seq, block_size, device_size, m);
        let all = recovery_copies(states, entries, rotation_seq, block_size, device_size, n);
        lemma_block_on_device(m as int, block_size, device_size);
        lemma_block_on_device(block, block_size, device_size);
        if block != m {
            assert(block_start(block, block_size) != block_start(m as int, block_size))
                by (nonlinear_arith)
                requires
                    block_size > 0,
                    block != m,
                    block_start(block, block_size) == block * block_size,
                    block_start(m as int, block_size) == m * block_size,
            ;
        }
        if exists|i: int|
            0 <= i < before.len() && (#[trigger] before[i]).offset == block_start(
                block,
                block_size,
            ) {
            let i = choose|i: int|
                0 <= i < before.len() && (#[trigger] before[i]).offset == block_start(
                    block,
                    block_size,
                );
            assert(all[i] == before[i]);
        }
        if exists|i: int|
            0 <= i < all.len() && (#[trigger] all[i]).offset == block_start(block, block_size) {
            let i = choose|i: int|
                0 <= i < all.len() && (#[trigger] all[i]).offset == block_start(block, block_size);
            if i < before.len() {
                assert(before[i] == all[i]);
            }
        }
        if all.len() > before.len() && block == m {
            assert(all[before.len() as int].offset == block_start(block, block_size));
        }
    }
}

/// Recovery brings exactly the right data back: a block is copied from the
/// flushing file if its newest data is there alone, and never if it was written
/// after the rotation, even where that write was all zeros.
pub proof fn law_recovery_copies_pre_rotation_data(
    states: Seq<u8>,
    entries: Seq<WalEntry>,
    rotation_seq: u64,
    block_size: int,
    device_size: int,
    block: int,
)
    requires
        block_size > 0,
        0 <= block < states.len(),
        0 <= device_size <= u64::MAX,
        states.len() == ceil_div(device_size, block_size),
    ensures
        (exists|i: int|
            0 <= i < recovery_copies(
                states,
                entries,
                rotation_seq,
                block_size,
                device_size,
                states.len(),
            ).len() && (#[trigger] recovery_copies(
                states,
                entries,
                rotation_seq,
                block_size,
                device_size,
                states.len(),
            )[i]).offset == block_start(block, block_size)) <==> unflushed(states[block])
            && !written_after_rotation(states, entries, rotation_seq, block),
{
    lemma_recovery_copies(
        states,
        entries,
        rotation_seq,
        block_size,
        device_size,
        states.len(),
        block,
    );
}

/// A committed write survives a crash: with the metadata as it was when the
/// write was committed and the log entries of the write, every block of the
/// write is dirty after recovery, and, where the metadata knows of a rotation,
/// its data is not replaced from the flushing file.
pub proof fn law_committed_write_survives_crash(
    s: CacheState,
    offset: int,
    len: int,
    rotation_seq: u64,
    keep_syncing: bool,
    block: int,
)
    requires
        s.bs() > 0,
        0 <= offset,
        0 < len,
        offset + len <= s.ds(),
        s.num_blocks() == ceil_div(s.ds(), s.bs()),
        s.num_blocks() <= usize::MAX,
        first_block(offset, s.bs()) <= block <= last_block(offset, len, s.bs()),
        s.sequence + range_entries(s, offset, len).len() <= u64::MAX,
    ensures
        ({
            let entries = range_entries(s, offset, len);
            let states = replayed(s.blocks.states, entries);
            &&& recovered_states(states, keep_syncing)[block] == SparseBlockState::DIRTY
            &&& rotation_seq > 0 ==> written_after_rotation(states, entries, rotation_seq, block)
        }),
{
    lemma_range_blocks(offset, len, s.bs(), s.ds());
    law_commit_dirties_range(s, offset, len);
    law_log_covers_new_dirty_blocks(s, offset, len);
    let entries = range_entries(s, offset, len);
    lemma_replayed(s.blocks.states, entries, block);
    assert(range_dirtied(s, offset, len).state(block) == SparseBlockState::DIRTY);
    if s.state(block) != SparseBlockState::DIRTY {
        assert(logged(entries, block));
    }
}

/// An opened cache starts with counters in step with its states.
pub proof fn law_opened_counters_follow_states(
    opening: Opening,
    entries: Seq<WalEntry>,
    passive: bool,
    flushing_exists: bool,
)
    requires
        opening.wf(),
    ensures
        opened_state(opening, entries, passive, flushing_exists).blocks.counted(),
        !passive ==> opened_state(opening, entries, passive, flushing_exists).blocks.syncing == 0,
{
    let states = opened_state(opening, entries, passive, flushing_exists).blocks.states;
    lemma_replayed_len(opening.loaded.states@, entries);
    lemma_count_bounds(states, SparseBlockState::DIRTY);
    lemma_count_bounds(states, SparseBlockState::SYNCING);
    if !passive && states.contains(SparseBlockState::SYNCING) {
        let i = choose|i: int| 0 <= i < states.len() && states[i] == SparseBlockState::SYNCING;
        assert(false);
    }
}

/// Replaying a log makes the blocks of its entries dirty and keeps the counters in
/// step with the states.
pub proof fn law_replay_keeps_counters(blocks: Blocks, entries: Seq<WalEntry>)
    requires
        blocks.counted(),
        blocks.states.len() <= u64::MAX,
    ensures
        blocks_replayed(blocks, entries).counted(),
        blocks_replayed(blocks, entries).states == replayed(blocks.states, entries),
    decreases entries.len(),
{
    if entries.len() > 0 {
        let before = blocks_replayed(blocks, entries.drop_last());
        law_replay_keeps_counters(blocks, entries.drop_last());
        lemma_replayed_len(blocks.states, entries.drop_last());
        if entries.last().block_index < blocks.states.len() {
            law_counters_follow_states(before, entries.last().block_index as int);
        }
    }
}

/// The last sequence number after a replay is the highest of the one before it and those of
/// the log.
pub proof fn law_highest_sequence_counts(sequence: u64, entries: Seq<WalEntry>)
    ensures
        max_seq(sequence, entries) >= sequence,
        forall|i: int|
            0 <= i < entries.len() ==> max_seq(sequence, entries) >= (
            #[trigger] entries[i]).sequence,
        max_seq(sequence, entries) == sequence || exists|i: int|
            0 <= i < entries.len() && (#[trigger] entries[i]).sequence == max_seq(
                sequence,
                entries,
            ),
    decreases entries.len(),
{
    if entries.len() > 0 {
        let rest = entries.drop_last();
        law_highest_sequence_counts(sequence, rest);
        assert forall|i: int| 0 <= i < entries.len() implies max_seq(sequence, entries) >= (
        #[trigger] entries[i]).sequence by {
            if i < rest.len() {
                assert(rest[i] == entries[i]);
            }
        }
        if max_seq(sequence, entries) == max_seq(sequence, rest) {
            if max_seq(sequence, rest) != sequence {
                let i = choose|i: int|
                    0 <= i < rest.len() && (#[trigger] rest[i]).sequence == max_seq(sequence, rest);
                assert(entries[i] == rest[i]);
            }
        } else {
            assert(entries[entries.len() - 1].sequence == max_seq(sequence, entries));
        }
    }
}

/// Replaying a log makes exactly those blocks dirty that it names, and leaves the others as
/// they were. What lies beyond the device is passed over.
pub proof fn law_replay_dirties_named_blocks(blocks: Blocks, entries: Seq<WalEntry>)
    ensures
        blocks_replayed(blocks, entries).states.len() == blocks.states.len(),
        forall|b: int|
            0 <= b < blocks.states.len() ==> #[trigger] blocks_replayed(blocks, entries).states[b]
                == if exists|i: int|
                0 <= i < entries.len() && (#[trigger] entries[i]).block_index == b {
                2
            } else {
                blocks.states[b]
            },
    decreases entries.len(),
{
    if entries.len() > 0 {
        let rest = entries.drop_last();
        let last = entries.last().block_index as int;
        law_replay_dirties_named_blocks(blocks, rest);
        assert forall|b: int| 0 <= b < blocks.states.len() implies #[trigger] blocks_replayed(
            blocks,
            entries,
        ).states[b] == if exists|i: int|
            0 <= i < entries.len() && (#[trigger] entries[i]).block_index == b {
            2
        } else {
            blocks.states[b]
        } by {
            let before = blocks_replayed(blocks, rest).states[b];
            if exists|i: int| 0 <= i < rest.len() && (#[trigger] rest[i]).block_index == b {
                let i = choose|i: int| 0 <= i < rest.len() && (#[trigger] rest[i]).block_index == b;
                assert(entries[i] == rest[i]);
            }
            if exists|i: int| 0 <= i < entries.len() && (#[trigger] entries[i]).block_index == b {
                let i = choose|i: int|
                    0 <= i < entries.len() && (#[trigger] entries[i]).block_index == b;
                if i < rest.len() {
                    assert(rest[i] == entries[i]);
                }
            }
            assert(entries[entries.len() - 1].block_index == last);
        }
    }
}

/// What recovery makes of a block. One that the log names, or that was dirty, is dirty. One
/// that a flush had claimed is dirty too, unless the predecessor of a successor is still
/// flushing it. Any other is absent. The sequence goes on from the highest number. Only a
/// cache that owns its files rewrites the log and removes the flushing file. A log that cannot
/// be read is an error.
pub proof fn law_recovery(
    opening: Opening,
    entries: Vec<WalEntry>,
    passive: bool,
    flushing_exists: bool,
    result: Result<Opened, CacheError>,
    b: int,
)
    requires
        opening.wf(),
        call_ensures(
            Opening::recover,
            (opening, Ok::<&Vec<WalEntry>, &str>(&entries), passive, flushing_exists),
            result,
        ),
        0 <= b < opening.loaded.states@.len(),
    ensures
        result is Ok,
        ({
            let opened = result->Ok_0;
            let s = opened.cache@;
            let before = opening.loaded.states@[b];
            let named = exists|i: int|
                0 <= i < entries@.len() && (#[trigger] entries@[i]).block_index == b;
            let kept = passive && flushing_exists;
            &&& s.num_blocks() == opening.loaded.states@.len()
            &&& named || before == 2 ==> s.blocks.states[b] == 2
            &&& !named && before == 3 && kept ==> s.blocks.states[b] == 3
            &&& !named && before == 3 && !kept ==> s.blocks.states[b] == 2
            &&& !named && before < 2 ==> s.blocks.states[b] == 0
            &&& !named && before > 3 ==> s.blocks.states[b] == before
            &&& s.blocks.counted()
            &&& s.sequence == max_seq(opening.loaded.max_sequence, entries@)
            &&& s.config == opening.config
            &&& s.claims == Set::<usize>::empty() && s.crcs == Map::<u32, Seq<u32>>::empty()
            &&& s.rotation_seq == 0 && !s.flushing_active && !s.flushing_open
            &&& !s.fenced && !s.freeze_in_progress && s.manifest_etag is None
            &&& s.handoff_phase is Warming <==> passive
            &&& s.handoff_phase is Idle <==> !passive
            &&& opened.rewrite_wal == !passive
            &&& opened.remove_flushing == (flushing_exists && !passive)
        }),
{
    lemma_replayed(opening.loaded.states@, entries@, b);
    law_opened_counters_follow_states(opening, entries@, passive, flushing_exists);
}

/// Which blocks recovery copies back from the flushing file, and how much of them. A block is
/// copied exactly if the cache owns its files, there is a flushing file, and its newest data
/// is there: it was claimed, or dirty before a rotation was recorded, and the log does not name
/// it. All of the block that lies on the device is copied.
pub proof fn law_recovery_copies(
    opening: Opening,
    entries: Vec<WalEntry>,
    passive: bool,
    flushing_exists: bool,
    result: Result<Opened, CacheError>,
    b: int,
)
    requires
        opening.wf(),
        call_ensures(
            Opening::recover,
            (opening, Ok::<&Vec<WalEntry>, &str>(&entries), passive, flushing_exists),
            result,
        ),
        0 <= b < opening.loaded.states@.len(),
    ensures
        result is Ok,
        ({
            let copies = result->Ok_0.copies@;
            let before = opening.loaded.states@[b];
            let named = exists|i: int|
                0 <= i < entries@.len() && (#[trigger] entries@[i]).block_index == b;
            let bs = opening.config.block_size;
            let copied = exists|k: int|
                0 <= k < copies.len() && (#[trigger] copies[k]).offset == b * bs;
            &&& copied <==> flushing_exists && !passive && !named && (before == 3 || (before == 2
                && opening.loaded.rotation_seq == 0))
            &&& forall|k: int|
                0 <= k < copies.len() ==> {
                    let copy = #[trigger] copies[k];
                    &&& 0 < copy.len <= bs
                    &&& copy.offset as int % bs as int == 0
                    &&& copy.offset + copy.len == opening.config.device_size || (copy.len == bs
                        && copy.offset + copy.len <= opening.config.device_size)
                }
        }),
{
    let states = replayed(opening.loaded.states@, entries@);
    let bs = opening.config.block_size as int;
    let ds = opening.config.device_size as int;
    lemma_replayed(opening.loaded.states@, entries@, b);
    if flushing_exists && !passive {
        law_recovery_copies_pre_rotation_data(
            states,
            entries@,
            opening.loaded.rotation_seq,
            bs,
            ds,
            b,
        );
        lemma_copies_lie_on_device(
            states,
            entries@,
            opening.loaded.rotation_seq,
            bs,
            ds,
            states.len(),
        );
    }
}

proof fn lemma_copies_lie_on_device(
    states: Seq<u8>,
    entries: Seq<WalEntry>,
    rotation_seq: u64,
    block_size: int,
    device_size: int,
    n: nat,
)
    requires
        0 < block_size <= usize::MAX,
        n <= states.len(),
        0 <= device_size <= u64::MAX,
        states.len() == ceil_div(device_size, block_size),
    ensures
        ({
            let copies = recovery_copies(
                states,
                entries,
                rotation_seq,
                block_size,
                device_size,
                n,
            );
            forall|k: int|
                0 <= k < copies.len() ==> {
                    let copy = #[trigger] copies[k];
                    &&& 0 < copy.len <= block_size
                    &&& copy.offset as int % block_size == 0
                    &&& copy.offset + copy.len == device_size || (copy.len == block_size
                        && copy.offset + copy.len <= device_size)
                }
        }),
    decreases n,
{
    if n > 0 {
        let m = (n - 1) as nat;
        lemma_copies_lie_on_device(states, entries, rotation_seq, block_size, device_size, m);
        lemma_block_on_device(m as int, block_size, device_size);
        vstd::arithmetic::div_mod::lemma_mod_multiples_basic(m as int, block_size);
        let before = recovery_copies(states, entries, rotation_seq, block_size, device_size, m);
        let all = recovery_copies(states, entries, rotation_seq, block_size, device_size, n);
        assert forall|k: int| 0 <= k < all.len() implies {
            let copy = #[trigger] all[k];
            &&& 0 < copy.len <= block_size
            &&& copy.offset as int % block_size == 0
            &&& copy.offset + copy.len == device_size || (copy.len == block_size && copy.offset
                + copy.len <= device_size)
        } by {
            if k < before.len() {
                assert(all[k] == before[k]);
            }
        }
    }
}

/// The log is replayed from the last rotation on, where the metadata knows of one that came
/// before its highest sequence number, and else from that number on.
pub proof fn law_replay_starts(opening: Opening, min_seq: u64)
    requires
        call_ensures(Opening::wal_min_seq, (&opening,), min_seq),
    ensures
        min_seq <= opening.loaded.max_sequence,
        opening.loaded.rotation_seq == 0 ==> min_seq == opening.loaded.max_sequence,
        0 < opening.loaded.rotation_seq < opening.loaded.max_sequence ==> min_seq
            == opening.loaded.rotation_seq,
{
}

/// A log that is open is used. One that another process has locked is not touched; any other
/// that does not open is made anew once, where that is allowed.
pub proof fn law_log_is_opened(
    attempt: Result<(), IoError>,
    path: String,
    may_recreate: bool,
    action: WalOpenAction,
)
    requires
        call_ensures(after_wal_open, (attempt, path, may_recreate), action),
    ensures
        action is Proceed <==> attempt is Ok,
        attempt is Err && attempt->Err_0.kind == IoErrorKind::WouldBlock ==> action
            == WalOpenAction::Fail(CacheError::Locked(path)),
        attempt is Err && attempt->Err_0.kind != IoErrorKind::WouldBlock && may_recreate
            ==> action is RemoveAndRetry,
        attempt is Err && attempt->Err_0.kind != IoErrorKind::WouldBlock && !may_recreate ==> action
            == WalOpenAction::Fail(CacheError::Io(attempt->Err_0)),
{
}

/// A cache opens with what its metadata says, and fails as the metadata does. Without sizes it
/// does not open.
pub proof fn law_opening_loads_metadata(
    config: WriteCacheConfig,
    file: Vec<u8>,
    opened: Result<Opening, CacheError>,
    loaded: Result<LoadedMetadata, CacheError>,
)
    requires
        call_ensures(WriteCache::<Initializing>::open, (config, Some(&file)), opened),
        call_ensures(load_metadata, (&config, Some(&file)), loaded),
    ensures
        config.block_size == 0 || config.device_size == 0 ==> opened is Err
            && opened->Err_0 is InvalidMetadata,
        config.block_size > 0 && config.device_size > 0 ==> (opened is Ok <==> loaded is Ok),
        config.block_size > 0 && config.device_size > 0 && loaded is Ok ==> {
            let o = opened->Ok_0;
            &&& o.config == config
            &&& o.loaded.states@ == loaded->Ok_0.states@
            &&& o.loaded.max_sequence == loaded->Ok_0.max_sequence
            &&& o.loaded.rotation_seq == loaded->Ok_0.rotation_seq
        },
        config.block_size > 0 && config.device_size > 0 && loaded is Err ==> (
        opened->Err_0 is InvalidMetadata <==> loaded->Err_0 is InvalidMetadata),
{
}

/// A cache without metadata opens empty, and so does a fresh one, which serves at once.
pub proof fn law_fresh_caches_are_empty(
    config: WriteCacheConfig,
    passive: bool,
    opened: Result<Opening, CacheError>,
    fresh: Result<WriteCache<Active>, CacheError>,
    b: int,
)
    requires
        call_ensures(WriteCache::<Initializing>::open, (config, None), opened),
        call_ensures(WriteCache::<Initializing>::open_fresh_active, (config, passive), fresh),
        0 <= b < config.spec_num_blocks(),
    ensures
        opened is Ok <==> config.block_size > 0 && config.device_size > 0,
        fresh is Ok <==> config.block_size > 0 && config.device_size > 0,
        opened is Ok ==> opened->Ok_0.loaded.states@[b] == 0 && opened->Ok_0.loaded.max_sequence == 0,
        fresh is Ok ==> fresh->Ok_0@.blocks.states[b] == 0 && fresh->Ok_0@.sequence == 0
            && fresh->Ok_0@.config == config && !fresh->Ok_0@.fenced && (
        fresh->Ok_0@.handoff_phase is Warming <==> passive),
{
}

/// A log that cannot be read keeps the cache from opening, and the error says why.
pub proof fn law_unreadable_log(
    opening: Opening,
    reason: &str,
    passive: bool,
    flushing_exists: bool,
    result: Result<Opened, CacheError>,
)
    requires
        call_ensures(
            Opening::recover,
            (opening, Err::<&Vec<WalEntry>, &str>(reason), passive, flushing_exists),
            result,
        ),
    ensures
        result is Err,
        result->Err_0 is Io,
        result->Err_0->Io_0.message@ == "WAL replay failed, refusing to open cache: "@ + reason@,
{
}

} // verus!
