//! Checkpoints, manifest uploads, handoff and shutdown.

use std::marker::PhantomData;
use vstd::prelude::*;
use vstd::string::StringExecFns;
use crate::write_cache::error::{CacheError, ContentStoreError, IoError, IoErrorKind};
use crate::write_cache::init::{
    blocks_replayed, law_highest_sequence_counts, law_replay_dirties_named_blocks,
    law_replay_keeps_counters, max_seq,
};
use crate::write_cache::inner::{CacheInner, CacheState, HandoffPhase, SafetyNet};
use crate::write_cache::metadata::{
    encode_metadata, law_metadata_round_trip, load_metadata, metadata_bytes, LoadedMetadata,
};
use crate::write_cache::state_map::{law_states_are_counted, SparseBlockState};
use crate::write_cache::write::WalEntry;
use crate::write_cache::{
    Active, Draining, FlushStats, Recovering, SnapshotResult, WriteCache,
};

verus! {

/// The state of a block as a typed value.
#[derive(Clone, Copy, Debug, PartialEq, Eq, Structural)]
pub enum BlockState {
    NotPresent,
    Clean,
    Dirty,
    Syncing,
}

impl BlockState {
    /// The state that a byte stands for.
    pub open spec fn spec_from_raw(raw: u8) -> BlockState {
        if raw == SparseBlockState::CLEAN {
            BlockState::Clean
        } else if raw == SparseBlockState::DIRTY {
            BlockState::Dirty
        } else if raw == SparseBlockState::SYNCING {
            BlockState::Syncing
        } else {
            BlockState::NotPresent
        }
    }

    pub fn from_raw(raw: u8) -> (state: BlockState)
        ensures
            state == BlockState::spec_from_raw(raw),
    {
        if raw == SparseBlockState::CLEAN {
            BlockState::Clean
        } else if raw == SparseBlockState::DIRTY {
            BlockState::Dirty
        } else if raw == SparseBlockState::SYNCING {
            BlockState::Syncing
        } else {
            BlockState::NotPresent
        }
    }
}

/// What a checkpoint writes.
pub struct Checkpoint {
    /// The metadata file to store.
    pub metadata: Vec<u8>,
    /// Whether the WAL can be truncated once the file is stored.
    pub truncate_wal: bool,
    /// Whether storing it ends the need for the flushing file of a finished flush.
    pub settles: bool,
}

/// What follows an attempt to upload the manifest.
pub enum PutNext {
    /// The manifest is stored.
    Stored,
    /// Try again after this many milliseconds.
    RetryAfter(u64),
    /// Give up.
    Fail(CacheError),
}

/// What follows an attempt to store a versioned snapshot.
#[derive(Clone, Copy, Debug, PartialEq, Eq, Structural)]
pub enum SnapshotNext {
    /// The snapshot is stored.
    Persisted,
    /// Try again after this many milliseconds.
    RetryAfter(u64),
    /// Go on without it.
    GiveUp,
}

/// Uploads are tried this many times.
pub const MAX_ATTEMPTS: u32 = 3;

/// The pause after the failed attempt with the given number, counted from zero.
/// It doubles from attempt to attempt, and there is none after the last.
pub open spec fn retry_delay(attempt: u32) -> Option<u64> {
    if attempt == 0 {
        Some(100)
    } else if attempt == 1 {
        Some(200)
    } else {
        None
    }
}

fn next_delay(attempt: u32) -> (delay: Option<u64>)
    ensures
        delay == retry_delay(attempt),
{
    if attempt == 0 {
        Some(100)
    } else if attempt == 1 {
        Some(200)
    } else {
        None
    }
}

/// Decides what follows an attempt to store a versioned snapshot.
pub fn after_snapshot_put(attempt: u32, stored: bool) -> (next: SnapshotNext)
    requires
        attempt < MAX_ATTEMPTS,
    ensures
        next == (if stored {
            SnapshotNext::Persisted
        } else {
            match retry_delay(attempt) {
                Some(ms) => SnapshotNext::RetryAfter(ms),
                None => SnapshotNext::GiveUp,
            }
        }),
{
    if stored {
        return SnapshotNext::Persisted;
    }
    match next_delay(attempt) {
        Some(ms) => SnapshotNext::RetryAfter(ms),
        None => SnapshotNext::GiveUp,
    }
}

/// The state after the metadata of a checkpoint was stored. `settles` says whether the
/// manifest was synced when the checkpoint was made.
pub open spec fn checkpoint_saved(s: CacheState, settles: bool) -> CacheState {
    if settles {
        CacheState { safety_net: s.safety_net.spec_saved(), ..s }
    } else {
        s
    }
}

impl CacheState {
    /// The metadata file of the state.
    pub open spec fn metadata_file(self) -> Seq<u8> {
        metadata_bytes(
            self.config.device_size,
            self.config.block_size as u64,
            self.blocks.states,
            self.sequence,
            self.rotation_seq,
        )
    }
}

impl CacheInner {
    /// The metadata file: present blocks and sequence numbers.
    pub fn save_block_states(&self) -> (file: Vec<u8>)
        requires
            self.wf(),
        ensures
            file@ == self@.metadata_file(),
    {
        encode_metadata(
            self.config.device_size,
            self.config.block_size as u64,
            &self.blocks.map,
            self.sequence,
            self.rotation_seq,
        )
    }

    /// Persist block states and presence.
    pub fn save_metadata(&self) -> (file: Vec<u8>)
        requires
            self.wf(),
        ensures
            file@ == self@.metadata_file(),
    {
        self.save_block_states()
    }
}

impl WriteCache<Recovering> {
    /// Skip recovery and transition directly to Active state.
    pub fn skip_recovery_for_test(self) -> (cache: WriteCache<Active>)
        ensures
            cache.inner == self.inner,
    {
        WriteCache { inner: self.inner, _state: PhantomData }
    }

    /// Recover from a previous session and transition to Active. Where there are
    /// dirty blocks, the metadata file to store before serving I/O.
    pub fn finish_recovery(self) -> (result: (WriteCache<Active>, Option<Vec<u8>>))
        requires
            self.wf(),
        ensures
            result.0.inner == self.inner,
            match result.1 {
                Some(file) => self@.blocks.dirty != 0 && file@ == self@.metadata_file(),
                None => self@.blocks.dirty == 0,
            },
    {
        let metadata: Option<Vec<u8>> = if self.inner.blocks.dirty_block_count == 0 {
            None
        } else {
            Some(self.inner.save_metadata())
        };
        (WriteCache { inner: self.inner, _state: PhantomData }, metadata)
    }
}

/// The text of the error for a log whose tail cannot be replayed.
pub open spec fn tail_failed_text(reason: Seq<char>) -> Seq<char> {
    "WAL tail replay failed: "@ + reason
}

impl WriteCache<Active> {
    /// Get the number of dirty blocks pending sync.
    pub fn dirty_block_count(&self) -> (n: u64)
        ensures
            n == self@.blocks.dirty,
    {
        self.inner.blocks.dirty_block_count
    }

    /// Get the number of blocks currently being synced.
    pub fn syncing_block_count(&self) -> (n: u64)
        ensures
            n == self@.blocks.syncing,
    {
        self.inner.blocks.syncing_block_count
    }

    /// Number of blocks with checksums that the next flush will drain.
    pub fn pending_crc_count(&self) -> (n: usize)
        ensures
            n == self@.crcs.dom().len(),
    {
        self.inner.page_crcs.len()
    }

    /// Number of recovery issues encountered during cache open.
    pub fn recovery_warning_count(&self) -> (n: u64)
        ensures
            n == self@.recovery_warnings,
    {
        self.inner.recovery_warnings
    }

    /// Current WAL sequence number.
    pub fn last_persisted_seq(&self) -> (sequence: u64)
        ensures
            sequence == self@.sequence,
    {
        self.inner.sequence
    }

    /// Get the device size.
    pub fn device_size(&self) -> (size: u64)
        ensures
            size == self@.config.device_size,
    {
        self.inner.config.device_size
    }

    /// Get the block size.
    pub fn block_size(&self) -> (size: usize)
        ensures
            size == self@.config.block_size,
    {
        self.inner.config.block_size
    }

    /// Check if a block is present on local SSD.
    pub fn is_block_present(&self, block_idx: usize) -> (present: bool)
        requires
            self.wf(),
        ensures
            present == (self@.blocks.has(block_idx as int) && self@.state(block_idx as int)
                != SparseBlockState::NOT_PRESENT),
    {
        self.inner.blocks.is_present(block_idx)
    }

    /// Try to claim a NOT_PRESENT block. Returns true if this call won the
    /// transition, false if already present.
    pub fn try_claim_block(&mut self, block_idx: usize) -> (won: bool)
        requires
            old(self).wf(),
        ensures
            final(self).wf(),
            won == (old(self)@.blocks.has(block_idx as int) && old(self)@.state(block_idx as int)
                == SparseBlockState::NOT_PRESENT),
            final(self)@ == (CacheState {
                blocks: old(self)@.blocks.marked_present(block_idx as int),
                ..old(self)@
            }),
    {
        self.inner.blocks.try_set_present(block_idx)
    }

    /// Get the block state as a typed value.
    pub fn block_state(&self, block_idx: usize) -> (state: BlockState)
        requires
            self.wf(),
            self@.blocks.has(block_idx as int),
        ensures
            state == BlockState::spec_from_raw(self@.state(block_idx as int)),
    {
        BlockState::from_raw(self.inner.blocks.get(block_idx))
    }

    /// Evict a flushed block. Returns false if it is no longer syncing.
    pub fn transition_syncing_to_not_present(&mut self, block_idx: usize) -> (evicted: bool)
        requires
            old(self).wf(),
            old(self)@.blocks.has(block_idx as int),
        ensures
            final(self).wf(),
            evicted == (old(self)@.state(block_idx as int) == SparseBlockState::SYNCING),
            final(self)@ == (CacheState {
                blocks: old(self)@.blocks.evicted(block_idx as int),
                ..old(self)@
            }),
    {
        self.inner.blocks.transition_syncing_to_not_present(block_idx)
    }

    /// The metadata file to store.
    pub fn save_metadata(&self) -> (file: Vec<u8>)
        requires
            self.wf(),
        ensures
            file@ == self@.metadata_file(),
    {
        self.inner.save_metadata()
    }

    /// Toggle the "freeze in progress" flag. While set, `checkpoint` leaves the
    /// WAL intact for a handoff successor to replay.
    pub fn set_freeze_in_progress(&mut self, frozen: bool)
        ensures
            final(self)@ == (CacheState { freeze_in_progress: frozen, ..old(self)@ }),
            old(self).wf() ==> final(self).wf(),
    {
        self.inner.freeze_in_progress = frozen;
    }

    /// Move to another phase of a handoff.
    pub fn set_handoff_phase(&mut self, phase: HandoffPhase)
        ensures
            final(self)@ == (CacheState { handoff_phase: phase, ..old(self)@ }),
            old(self).wf() ==> final(self).wf(),
    {
        self.inner.handoff_phase = phase;
    }

    /// Persist block states and truncate the WAL, unless a handoff is under way:
    /// a successor that has already loaded its states would miss the entries.
    pub fn checkpoint(&self) -> (checkpoint: Checkpoint)
        requires
            self.wf(),
        ensures
            checkpoint.metadata@ == self@.metadata_file(),
            checkpoint.truncate_wal == (!self@.freeze_in_progress && self@.handoff_phase
                == HandoffPhase::Idle),
            checkpoint.settles == (self@.safety_net == SafetyNet::UntilSaved),
    {
        Checkpoint {
            settles: self.inner.safety_net == SafetyNet::UntilSaved,
            metadata: self.inner.save_block_states(),
            truncate_wal: !self.inner.freeze_in_progress && !self.inner.handoff_phase.is_active(),
        }
    }

    /// The metadata of a checkpoint is on disk. If the manifest had been synced when
    /// the checkpoint was made, the flushing file of that flush is no longer needed.
    pub fn checkpointed(&mut self, settles: bool)
        ensures
            final(self)@ == checkpoint_saved(old(self)@, settles),
            old(self).wf() ==> final(self).wf(),
    {
        if settles {
            self.inner.safety_net = self.inner.safety_net.saved();
        }
    }

    /// Graceful shutdown: the metadata file to store, and the cache in its last
    /// state.
    pub fn shutdown(self) -> (result: (Vec<u8>, WriteCache<Draining>))
        requires
            self.wf(),
        ensures
            result.0@ == self@.metadata_file(),
            result.1.inner == self.inner,
    {
        let metadata: Vec<u8> = self.inner.save_metadata();
        (metadata, WriteCache { inner: self.inner, _state: PhantomData })
    }

    /// Replay WAL entries newer than the current sequence number.
    ///
    /// A handoff successor opens its cache while the predecessor still writes;
    /// this picks the later entries up. `wal` is what reading the log from the
    /// current sequence number on gave. Returns the number of entries.
    pub fn replay_wal_tail(&mut self, wal: Result<&Vec<WalEntry>, &str>) -> (result: Result<
        usize,
        CacheError,
    >)
        requires
            old(self).wf(),
        ensures
            final(self).wf(),
            match wal {
                Err(reason) => final(self)@ == old(self)@ && (result matches Err(CacheError::Io(io))
                    && io.kind == IoErrorKind::Other && io.message@ == tail_failed_text(reason@)),
                Ok(entries) => result == Ok::<usize, CacheError>(entries@.len() as usize)
                    && final(self)@ == (CacheState {
                    blocks: blocks_replayed(old(self)@.blocks, entries@),
                    sequence: max_seq(old(self)@.sequence, entries@),
                    ..old(self)@
                }),
            },
    {
        let entries: &Vec<WalEntry> = match wal {
            Err(reason) => {
                return Err(
                    CacheError::Io(
                        IoError {
                            kind: IoErrorKind::Other,
                            message: String::from_str("WAL tail replay failed: ").concat(reason),
                        },
                    ),
                );
            },
            Ok(entries) => entries,
        };
        let ghost s0 = self@;
        let num_blocks: usize = self.inner.blocks.num_blocks();
        let mut i: usize = 0;
        while i < entries.len()
            invariant
                self.wf(),
                i <= entries@.len(),
                num_blocks == s0.blocks.states.len(),
                self@ == (CacheState {
                    blocks: blocks_replayed(s0.blocks, entries@.take(i as int)),
                    sequence: max_seq(s0.sequence, entries@.take(i as int)),
                    ..s0
                }),
                self@.num_blocks() == num_blocks,
            decreases entries@.len() - i,
        {
            let entry: WalEntry = entries[i];
            proof {
                let upto = entries@.take(i + 1);
                assert(upto.drop_last() =~= entries@.take(i as int));
                assert(upto.last() == entry);
            }
            if entry.sequence > self.inner.sequence {
                self.inner.sequence = entry.sequence;
            }
            if entry.block_index < num_blocks as u64 {
                let _ = self.inner.blocks.transition_to_dirty(entry.block_index as usize);
            }
            i = i + 1;
        }
        assert(entries@.take(i as int) =~= entries@);
        Ok(entries.len())
    }

    /// The ETag that the stored manifest must still have for an upload to go
    /// through. None before the first upload.
    pub fn expected_etag(&self) -> (etag: Option<&str>)
        ensures
            match etag {
                Some(tag) => self@.manifest_etag matches Some(known) && tag@ == known@,
                None => self@.manifest_etag is None,
            },
    {
        match &self.inner.manifest_etag {
            Some(etag) => Some(etag.as_str()),
            None => None,
        }
    }

    /// Whether the manifest has to be synced, since packs were appended to it. Until
    /// then no other flush starts.
    pub fn needs_manifest_sync(&self) -> (needed: bool)
        ensures
            needed == (self@.safety_net == SafetyNet::UntilSynced),
    {
        self.inner.safety_net == SafetyNet::UntilSynced
    }

    /// The manifest was uploaded once (`sync_manifest`, `snapshot`): remember its
    /// new ETag, or fail.
    pub fn manifest_synced(&mut self, result: Result<Option<String>, ContentStoreError>) -> (
    outcome: Result<(), CacheError>)
        requires
            old(self).wf(),
        ensures
            final(self).wf(),
            match result {
                Ok(etag) => outcome == Ok::<(), CacheError>(()) && final(self)@ == (CacheState {
                    manifest_etag: etag,
                    safety_net: old(self)@.safety_net.spec_synced(),
                    ..old(self)@
                }),
                Err(e) => outcome == Err::<(), CacheError>(CacheError::ContentStore(e))
                    && final(self)@ == old(self)@,
            },
    {
        match result {
            Ok(etag) => {
                self.inner.manifest_etag = etag;
                self.inner.safety_net = self.inner.safety_net.synced();
                Ok(())
            },
            Err(e) => Err(CacheError::ContentStore(e)),
        }
    }

    /// Decides what follows an attempt to upload the manifest while draining. A
    /// failed precondition is final, since another host owns the manifest; other
    /// failures are retried.
    pub fn after_manifest_put(
        &mut self,
        attempt: u32,
        result: Result<Option<String>, ContentStoreError>,
    ) -> (next: PutNext)
        requires
            old(self).wf(),
            attempt < MAX_ATTEMPTS,
        ensures
            final(self).wf(),
            match result {
                Ok(etag) => next is Stored && final(self)@ == (CacheState {
                    manifest_etag: etag,
                    safety_net: old(self)@.safety_net.spec_synced(),
                    ..old(self)@
                }),
                Err(e) => final(self)@ == old(self)@ && next == (if e is PreconditionFailed
                    || retry_delay(attempt) is None {
                    PutNext::Fail(CacheError::ContentStore(e))
                } else {
                    PutNext::RetryAfter(retry_delay(attempt)->Some_0)
                }),
            },
    {
        match result {
            Ok(etag) => {
                self.inner.manifest_etag = etag;
                self.inner.safety_net = self.inner.safety_net.synced();
                PutNext::Stored
            },
            Err(e) => {
                let lost: bool = match &e {
                    ContentStoreError::PreconditionFailed(_) => true,
                    ContentStoreError::Other(_) => false,
                };
                if lost {
                    return PutNext::Fail(CacheError::ContentStore(e));
                }
                match next_delay(attempt) {
                    Some(ms) => PutNext::RetryAfter(ms),
                    None => PutNext::Fail(CacheError::ContentStore(e)),
                }
            },
        }
    }

    /// The result of a snapshot whose manifest was stored under `etag`.
    pub fn snapshot(
        &self,
        stats: FlushStats,
        sequence: u64,
        etag: Option<String>,
        last_put: SnapshotNext,
        manifest_bytes: Vec<u8>,
    ) -> (result: SnapshotResult)
        ensures
            result == (SnapshotResult {
                manifest_etag: etag,
                sequence,
                snapshot_persisted: last_put == SnapshotNext::Persisted,
                stats,
                manifest_bytes,
            }),
    {
        SnapshotResult {
            manifest_etag: etag,
            sequence,
            snapshot_persisted: last_put == SnapshotNext::Persisted,
            stats,
            manifest_bytes,
        }
    }
}

/// Uploads are tried three times, with pauses of 100 and 200 milliseconds between them.
pub proof fn law_snapshot_retries(attempt: u32, stored: bool, next: SnapshotNext)
    requires
        call_ensures(after_snapshot_put, (attempt, stored), next),
        attempt < 3,
    ensures
        next is Persisted <==> stored,
        next is GiveUp <==> !stored && attempt == 2,
        next matches SnapshotNext::RetryAfter(ms) ==> ms == 100 * (attempt + 1),
{
}

/// A manifest that was stored is remembered by its new ETag, and counts as synced. A failed
/// upload changes nothing: it is tried again twice, after 100 and 200 milliseconds, unless the
/// manifest belongs to somebody else, which is final.
pub proof fn law_manifest_uploads(
    cache: &mut WriteCache<Active>,
    attempt: u32,
    result: Result<Option<String>, ContentStoreError>,
    next: PutNext,
)
    requires
        call_ensures(WriteCache::<Active>::after_manifest_put, (cache, attempt, result), next),
        attempt < 3,
    ensures
        ({
            let s = mut_ref_current(cache)@;
            let t = mut_ref_future(cache)@;
            &&& next is Stored <==> result is Ok
            &&& result matches Ok(etag) ==> {
                &&& t.manifest_etag == etag
                &&& t.safety_net == if s.safety_net is UntilSynced {
                    SafetyNet::UntilSaved
                } else {
                    s.safety_net
                }
                &&& t == (CacheState {
                    manifest_etag: t.manifest_etag,
                    safety_net: t.safety_net,
                    ..s
                })
            }
            &&& result is Err ==> t == s
            &&& result matches Err(e) ==> {
                &&& next is Fail <==> e is PreconditionFailed || attempt == 2
                &&& next matches PutNext::Fail(f) ==> f == CacheError::ContentStore(e)
                &&& next matches PutNext::RetryAfter(ms) ==> ms == 100 * (attempt + 1)
            }
        }),
{
}

/// A single upload of the manifest is taken in likewise, but is not tried again.
pub proof fn law_manifest_sync(
    cache: &mut WriteCache<Active>,
    result: Result<Option<String>, ContentStoreError>,
    outcome: Result<(), CacheError>,
)
    requires
        call_ensures(WriteCache::<Active>::manifest_synced, (cache, result), outcome),
    ensures
        ({
            let s = mut_ref_current(cache)@;
            let t = mut_ref_future(cache)@;
            &&& outcome is Ok <==> result is Ok
            &&& result is Err ==> t == s
            &&& result matches Ok(etag) ==> t.manifest_etag == etag && !(
            t.safety_net is UntilSynced) && (s.safety_net is UntilSynced
                ==> t.safety_net is UntilSaved) && (!(s.safety_net is UntilSynced)
                ==> t.safety_net == s.safety_net) && t == (CacheState {
                manifest_etag: t.manifest_etag,
                safety_net: t.safety_net,
                ..s
            })
        }),
{
}

/// A checkpoint truncates the log exactly outside a freeze and a handoff. It settles a finished
/// flush exactly if the manifest was synced before it; storing any other leaves the flushing
/// file needed.
pub proof fn law_checkpoints(
    cache: WriteCache<Active>,
    checkpoint: Checkpoint,
    stored: &mut WriteCache<Active>,
)
    requires
        call_ensures(WriteCache::<Active>::checkpoint, (&cache,), checkpoint),
        call_ensures(WriteCache::<Active>::checkpointed, (stored, checkpoint.settles), ()),
    ensures
        checkpoint.truncate_wal <==> !cache.inner.freeze_in_progress
            && cache.inner.handoff_phase is Idle,
        checkpoint.settles <==> cache.inner.safety_net is UntilSaved,
        ({
            let s = mut_ref_current(stored)@;
            let t = mut_ref_future(stored)@;
            &&& !checkpoint.settles ==> t == s
            &&& checkpoint.settles && s.safety_net is UntilSaved ==> t.safety_net is NotNeeded
            &&& s.safety_net is UntilSynced ==> t.safety_net is UntilSynced
            &&& t == (CacheState { safety_net: t.safety_net, ..s })
        }),
{
}

/// A replay of the tail of the log makes exactly the blocks dirty that it names, and leaves the
/// others as they were. The last sequence number is the highest that was seen. A log that
/// cannot be read changes nothing.
pub proof fn law_tail_is_replayed(
    cache: &mut WriteCache<Active>,
    entries: Vec<WalEntry>,
    result: Result<usize, CacheError>,
)
    requires
        mut_ref_current(cache).wf(),
        call_ensures(
            WriteCache::<Active>::replay_wal_tail,
            (cache, Ok::<&Vec<WalEntry>, &str>(&entries)),
            result,
        ),
    ensures
        ({
            let s = mut_ref_current(cache)@;
            let t = mut_ref_future(cache)@;
            &&& result == Ok::<usize, CacheError>(entries@.len() as usize)
            &&& t == (CacheState { blocks: t.blocks, sequence: t.sequence, ..s })
            &&& forall|b: int|
                0 <= b < s.num_blocks() ==> #[trigger] t.blocks.states[b] == if exists|i: int|
                    0 <= i < entries@.len() && (#[trigger] entries@[i]).block_index == b {
                    2
                } else {
                    s.blocks.states[b]
                }
            &&& t.sequence >= s.sequence
            &&& forall|i: int|
                0 <= i < entries@.len() ==> t.sequence >= (#[trigger] entries@[i]).sequence
            &&& t.sequence == s.sequence || exists|i: int|
                0 <= i < entries@.len() && (#[trigger] entries@[i]).sequence == t.sequence
            &&& s.blocks.counted() ==> t.blocks.counted()
        }),
{
    let s = mut_ref_current(cache)@;
    law_replay_dirties_named_blocks(s.blocks, entries@);
    law_highest_sequence_counts(s.sequence, entries@);
    if s.blocks.counted() {
        law_replay_keeps_counters(s.blocks, entries@);
    }
}

/// The states of a block are the bytes 0 for absent, 1 for clean, 2 for dirty and 3 for
/// claimed by a flush.
pub proof fn law_block_states(raw: u8, state: BlockState)
    requires
        call_ensures(BlockState::from_raw, (raw,), state),
    ensures
        state is Clean <==> raw == 1,
        state is Dirty <==> raw == 2,
        state is Syncing <==> raw == 3,
        raw == 0 || raw > 3 ==> state is NotPresent,
{
}

/// Recovery that found dirty blocks stores them before it serves anything; no block is changed
/// by it, nor by a shutdown.
pub proof fn law_recovery_is_saved(
    cache: WriteCache<Recovering>,
    recovered: (WriteCache<Active>, Option<Vec<u8>>),
    last: (Vec<u8>, WriteCache<Draining>),
)
    requires
        call_ensures(WriteCache::<Recovering>::finish_recovery, (cache,), recovered),
        call_ensures(WriteCache::<Active>::shutdown, (recovered.0,), last),
    ensures
        recovered.0@ == cache@,
        last.1@ == cache@,
        recovered.1 is Some <==> cache@.blocks.dirty > 0,
        recovered.1 matches Some(file) ==> file@ == last.0@,
{
}

/// What is saved of a cache is what is loaded: the state of every block, the last sequence
/// number, and that of the rotation.
pub proof fn law_saved_cache_loads_back(
    inner: CacheInner,
    file: Vec<u8>,
    result: Result<LoadedMetadata, CacheError>,
)
    requires
        inner.wf(),
        call_ensures(CacheInner::save_metadata, (&inner,), file),
        call_ensures(load_metadata, (&inner.config, Some(&file)), result),
    ensures
        result is Ok,
        ({
            let loaded = result->Ok_0;
            &&& loaded.states@.len() == inner@.num_blocks()
            &&& forall|b: int|
                0 <= b < inner@.num_blocks() ==> #[trigger] loaded.states@[b]
                    == inner@.blocks.states[b]
            &&& loaded.max_sequence == inner.sequence
            &&& loaded.rotation_seq == inner.rotation_seq
        }),
{
    let states = inner@.blocks.states;
    law_metadata_round_trip(
        inner.config.device_size,
        inner.config.block_size as u64,
        states,
        inner.sequence,
        inner.rotation_seq,
        inner.config.device_size,
        inner.config.spec_num_blocks() as nat,
    );
}

/// All that a cache saves is the same file, whatever saves it.
pub proof fn law_all_saves_agree(
    cache: WriteCache<Active>,
    inner_file: Vec<u8>,
    file: Vec<u8>,
    checkpoint: Checkpoint,
    last: (Vec<u8>, WriteCache<Draining>),
)
    requires
        call_ensures(CacheInner::save_metadata, (&cache.inner,), inner_file),
        call_ensures(WriteCache::<Active>::save_metadata, (&cache,), file),
        call_ensures(WriteCache::<Active>::checkpoint, (&cache,), checkpoint),
        call_ensures(WriteCache::<Active>::shutdown, (cache,), last),
    ensures
        file@ == inner_file@,
        checkpoint.metadata@ == inner_file@,
        last.0@ == inner_file@,
{
}

/// What a cache tells of itself.
pub proof fn law_cache_is_told(
    cache: WriteCache<Active>,
    dirty: u64,
    syncing: u64,
    warnings: u64,
    sequence: u64,
    size: u64,
    block_size: usize,
    idx: usize,
    present: bool,
    state: BlockState,
    needed: bool,
)
    requires
        call_ensures(WriteCache::<Active>::dirty_block_count, (&cache,), dirty),
        call_ensures(WriteCache::<Active>::syncing_block_count, (&cache,), syncing),
        call_ensures(WriteCache::<Active>::recovery_warning_count, (&cache,), warnings),
        call_ensures(WriteCache::<Active>::last_persisted_seq, (&cache,), sequence),
        call_ensures(WriteCache::<Active>::device_size, (&cache,), size),
        call_ensures(WriteCache::<Active>::block_size, (&cache,), block_size),
        call_ensures(WriteCache::<Active>::is_block_present, (&cache, idx), present),
        call_ensures(WriteCache::<Active>::block_state, (&cache, idx), state),
        call_ensures(WriteCache::<Active>::needs_manifest_sync, (&cache,), needed),
        idx < cache@.blocks.states.len(),
    ensures
        dirty == cache.inner.blocks.dirty_block_count,
        syncing == cache.inner.blocks.syncing_block_count,
        cache@.blocks.counted() ==> dirty == cache@.blocks.states.filter(|s: u8| s == 2).len()
            && syncing == cache@.blocks.states.filter(|s: u8| s == 3).len(),
        warnings == cache.inner.recovery_warnings,
        sequence == cache.inner.sequence,
        size == cache.inner.config.device_size,
        block_size == cache.inner.config.block_size,
        present <==> cache@.blocks.states[idx as int] != 0,
        state is Dirty <==> cache@.blocks.states[idx as int] == 2,
        state is Syncing <==> cache@.blocks.states[idx as int] == 3,
        state is Clean <==> cache@.blocks.states[idx as int] == 1,
        needed <==> cache.inner.safety_net is UntilSynced,
{
    law_states_are_counted(cache@.blocks.states, 2);
    law_states_are_counted(cache@.blocks.states, 3);
}

/// A freeze and a phase of a handoff are set as they are told and change nothing else; an
/// absent block is claimed once; only a claimed block is evicted.
pub proof fn law_small_changes(
    freezing: &mut WriteCache<Active>,
    frozen: bool,
    moving: &mut WriteCache<Active>,
    phase: HandoffPhase,
    claiming: &mut WriteCache<Active>,
    won: bool,
    evicting: &mut WriteCache<Active>,
    evicted: bool,
    idx: usize,
)
    requires
        call_ensures(WriteCache::<Active>::set_freeze_in_progress, (freezing, frozen), ()),
        call_ensures(WriteCache::<Active>::set_handoff_phase, (moving, phase), ()),
        call_ensures(WriteCache::<Active>::try_claim_block, (claiming, idx), won),
        call_ensures(WriteCache::<Active>::transition_syncing_to_not_present, (evicting, idx), evicted),
        idx < mut_ref_current(claiming)@.blocks.states.len(),
        idx < mut_ref_current(evicting)@.blocks.states.len(),
    ensures
        mut_ref_future(freezing)@ == (CacheState {
            freeze_in_progress: frozen,
            ..mut_ref_current(freezing)@
        }),
        mut_ref_future(moving)@ == (CacheState { handoff_phase: phase, ..mut_ref_current(moving)@ }),
        won <==> mut_ref_current(claiming)@.blocks.states[idx as int] == 0,
        mut_ref_future(claiming)@.blocks.states[idx as int] != 0,
        !won ==> mut_ref_future(claiming)@.blocks.states[idx as int]
            == mut_ref_current(claiming)@.blocks.states[idx as int],
        evicted <==> mut_ref_current(evicting)@.blocks.states[idx as int] == 3,
        evicted ==> mut_ref_future(evicting)@.blocks.states[idx as int] == 0,
        !evicted ==> mut_ref_future(evicting)@.blocks.states[idx as int]
            == mut_ref_current(evicting)@.blocks.states[idx as int],
{
}

/// The result of a snapshot is that of its parts, and says that it is stored exactly if the
/// last try to store it succeeded.
pub proof fn law_snapshot_result(
    cache: WriteCache<Active>,
    stats: FlushStats,
    sequence: u64,
    etag: Option<String>,
    last_put: SnapshotNext,
    manifest_bytes: Vec<u8>,
    result: SnapshotResult,
)
    requires
        call_ensures(
            WriteCache::<Active>::snapshot,
            (&cache, stats, sequence, etag, last_put, manifest_bytes),
            result,
        ),
    ensures
        result.snapshot_persisted <==> last_put is Persisted,
        result.sequence == sequence && result.stats == stats && result.manifest_etag == etag
            && result.manifest_bytes == manifest_bytes,
{
}

/// The tail of a log that cannot be read changes nothing, and the error says why.
pub proof fn law_unreadable_tail(
    cache: &mut WriteCache<Active>,
    reason: &str,
    result: Result<usize, CacheError>,
)
    requires
        call_ensures(
            WriteCache::<Active>::replay_wal_tail,
            (cache, Err::<&Vec<WalEntry>, &str>(reason)),
            result,
        ),
    ensures
        mut_ref_future(cache)@ == mut_ref_current(cache)@,
        result is Err,
        result->Err_0 is Io,
        result->Err_0->Io_0.message@ == "WAL tail replay failed: "@ + reason@,
{
}

/// An upload goes through only where the manifest still has the ETag that is known, if one is;
/// as many blocks are pending as have checksums.
pub proof fn law_pending(cache: WriteCache<Active>, etag: Option<&str>, n: usize)
    requires
        call_ensures(WriteCache::<Active>::expected_etag, (&cache,), etag),
        call_ensures(WriteCache::<Active>::pending_crc_count, (&cache,), n),
    ensures
        etag is Some <==> cache.inner.manifest_etag is Some,
        etag matches Some(tag) ==> tag@ == cache.inner.manifest_etag->Some_0@,
        n == cache@.crcs.dom().len(),
{
}

} // verus!
