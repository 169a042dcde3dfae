//! Write-behind cache of one export.
//!
//! A local SSD cache that gives fast flushes while data is synced to object
//! storage in the background. A typestate keeps its lifecycle in order:
//! reads, writes and flushes exist only for a cache in the `Active` state.

pub mod blocks;
pub mod compact;
pub mod config;
pub mod consistency;
pub mod crash;
pub mod error;
pub mod fetch;
pub mod flush;
pub mod geometry;
pub mod init;
pub mod inner;
pub mod lifecycle;
pub mod locate;
pub mod metadata;
pub mod pack_plan;
pub mod page_crcs;
pub mod promote;
pub mod read;
pub mod resolve;
pub mod rotate;
pub mod state_map;
pub mod volume;
pub mod write;

use std::marker::PhantomData;
use vstd::prelude::*;
use crate::write_cache::inner::{CacheInner, CacheState};

verus! {

/// The cache is being loaded.
pub struct Initializing {}

/// Blocks of the previous session are being recovered.
pub struct Recovering {}

/// The cache serves I/O.
pub struct Active {}

/// The cache is being shut down.
pub struct Draining {}

/// Statistics from a flush operation.
#[derive(Debug, Clone, Copy, PartialEq, Eq, Structural)]
pub struct FlushStats {
    /// Blocks claimed from the dirty set for this flush cycle, those that were
    /// later skipped included. Zero means no dirty blocks existed.
    pub blocks_claimed: usize,
    /// Blocks skipped (already in this batch or zero blocks).
    pub blocks_deduped: usize,
    /// Blocks left dirty because a concurrent write re-dirtied them during
    /// the flush cycle.
    pub blocks_cas_failed: usize,
    /// Blocks skipped because a page checksum did not match.
    pub blocks_crc_mismatched: usize,
    /// Checksum entries drained this flush cycle.
    pub crc_entries_drained: usize,
    /// Unique blocks with checksums.
    pub crc_unique_blocks: usize,
    /// Blocks skipped because an existing pack of the chunk already has the
    /// same content at the same place.
    pub blocks_cross_deduped: usize,
    /// Number of pack objects uploaded.
    pub packs_uploaded: usize,
    /// Number of pack uploads skipped (content-addressed pack already exists).
    pub packs_skipped: usize,
    /// Total bytes uploaded.
    pub bytes_uploaded: u64,
}

/// Statistics of a flush that did nothing.
pub open spec fn no_stats() -> FlushStats {
    FlushStats {
        blocks_claimed: 0,
        blocks_deduped: 0,
        blocks_cas_failed: 0,
        blocks_crc_mismatched: 0,
        crc_entries_drained: 0,
        crc_unique_blocks: 0,
        blocks_cross_deduped: 0,
        packs_uploaded: 0,
        packs_skipped: 0,
        bytes_uploaded: 0,
    }
}

impl Default for FlushStats {
    fn default() -> (stats: Self)
        ensures
            stats == no_stats(),
    {
        FlushStats {
            blocks_claimed: 0,
            blocks_deduped: 0,
            blocks_cas_failed: 0,
            blocks_crc_mismatched: 0,
            crc_entries_drained: 0,
            crc_unique_blocks: 0,
            blocks_cross_deduped: 0,
            packs_uploaded: 0,
            packs_skipped: 0,
            bytes_uploaded: 0,
        }
    }
}

/// Result of a snapshot operation.
#[derive(Debug)]
pub struct SnapshotResult {
    /// ETag of the uploaded manifest (if the backend provides one).
    pub manifest_etag: Option<String>,
    /// Sequence number at the snapshot cut point.
    pub sequence: u64,
    /// Whether the versioned snapshot was persisted. `false` means the manifest
    /// was saved but the versioned snapshot key was not.
    pub snapshot_persisted: bool,
    /// Flush statistics.
    pub stats: FlushStats,
    /// Serialized manifest bytes captured under the flush lock.
    pub manifest_bytes: Vec<u8>,
}

/// Write-behind cache with typestate lifecycle management.
///
/// The cache progresses through states:
/// - `Initializing`: loading the local cache
/// - `Recovering`: recovering dirty blocks from the previous session
/// - `Active`: serving I/O, the only state with reads, writes and flushes
/// - `Draining`: shutting down
#[verifier::reject_recursive_types(S)]
pub struct WriteCache<S> {
    pub inner: CacheInner,
    pub _state: PhantomData<S>,
}

impl<S> View for WriteCache<S> {
    type V = CacheState;

    open spec fn view(&self) -> CacheState {
        self.inner@
    }
}

impl<S> WriteCache<S> {
    pub open spec fn wf(&self) -> bool {
        self.inner.wf()
    }
}

impl WriteCache<Draining> {
    /// Finish draining and drop the cache.
    pub fn finish(self) {
    }
}

/// The statistics of a flush start at zero.
pub proof fn law_statistics_start_at_zero()
    ensures
        ({
            let s = no_stats();
            &&& s.blocks_claimed == 0 && s.blocks_deduped == 0 && s.blocks_cas_failed == 0
            &&& s.blocks_crc_mismatched == 0 && s.crc_entries_drained == 0
            &&& s.crc_unique_blocks == 0 && s.blocks_cross_deduped == 0
            &&& s.packs_uploaded == 0 && s.packs_skipped == 0 && s.bytes_uploaded == 0
        }),
{
}

} // verus!
