use std::collections::HashMap;

use glidefs::write_cache::compact::{
    compaction_need, dead_block_count, finish_compaction, live_offsets, merge_packs, pack_size,
    plan_compaction, split_live, CompactionNeed, CompactionPlan, CompactionResult, PackIndex,
};
use glidefs::write_cache::config::WriteCacheConfig;
use glidefs::write_cache::error::{CacheError, ContentStoreError, IoError, IoErrorKind};
use glidefs::write_cache::fetch::{accept_fetched, can_fetch_group};
use glidefs::write_cache::flush::{
    compute_block, compute_flush_batch, pad_block, BlockResult, BlockStep,
};
use glidefs::write_cache::init::{after_wal_open, WalOpenAction};
use glidefs::write_cache::inner::{is_zero_block, HandoffPhase};
use glidefs::write_cache::lifecycle::{after_snapshot_put, BlockState, PutNext, SnapshotNext};
use glidefs::write_cache::locate::{
    group_fetches, locate_after_fetch, locate_block, plan_group, split_range, verify_block_hash,
    BlockLocation, FetchEntry, FetchPlan, PackIndexEntry, PackView,
};
use glidefs::write_cache::metadata::{encode_metadata, load_metadata};
use glidefs::write_cache::pack_plan::{
    index_uploads, merge_indices, partition_by_chunk, plan_pack, FlushRun,
};
use glidefs::write_cache::page_crcs::{verify_page_crcs, PageCrcs};
use glidefs::write_cache::promote::{PromoteAction, Promotion};
use glidefs::write_cache::read::{assemble_read, build_read_plan, ChunkSource, LocalRead, ReadStart};
use glidefs::write_cache::resolve::{fill_fetched, partition_located, prefetch_chunk, Located};
use glidefs::write_cache::rotate::{FlushStart, RotationFiles};
use glidefs::write_cache::state_map::{DirtyTransition, SparseBlockState, SparseStateMap};
use glidefs::write_cache::write::{zero_range_chunks, Materialization, WalDurability, WalEntry};
use glidefs::write_cache::{Active, FlushStats, Initializing, SnapshotResult, WriteCache};

const BLOCK: usize = 8192;
const BLOCKS_PER_CHUNK: u32 = 4;
const ZERO_HASH: u128 = 1;

fn config(blocks: u64) -> WriteCacheConfig {
    WriteCacheConfig {
        cache_dir: "/cache".into(),
        device_name: "vm".into(),
        device_size: blocks * BLOCK as u64,
        block_size: BLOCK,
        wal_sync: false,
    }
}

fn hash_of(block: &[u8]) -> u128 {
    if block.iter().all(|&b| b == 0) {
        return ZERO_HASH;
    }
    block.iter().fold(7u128, |h, &b| h.wrapping_mul(0x1000003).wrapping_add(b as u128 + 11))
}

/// A pack in the store: its index and its bytes.
struct StoredPack {
    entries: Vec<PackIndexEntry>,
    data: Vec<u8>,
}

/// A device on files and an object store in memory.
struct Device {
    cache: WriteCache<Active>,
    blocks_per_chunk: u32,
    active: Vec<u8>,
    flushing: Option<Vec<u8>>,
    wal: Vec<WalEntry>,
    metadata: Option<Vec<u8>>,
    packs: HashMap<u64, StoredPack>,
    manifest: HashMap<u32, Vec<u64>>,
    clean: HashMap<u128, Vec<u8>>,
}

impl Device {
    fn new(blocks: u64) -> Device {
        let config = config(blocks);
        let size = config.device_size as usize;
        Device {
            cache: WriteCache::open_fresh_active(config, false).unwrap(),
            blocks_per_chunk: BLOCKS_PER_CHUNK,
            active: vec![0; size],
            flushing: None,
            wal: vec![],
            metadata: None,
            packs: HashMap::new(),
            manifest: HashMap::new(),
            clean: HashMap::new(),
        }
    }

    /// A device with chunks of 128 MiB.
    fn with_config(device_size: u64, block_size: usize) -> Device {
        let config = WriteCacheConfig {
            cache_dir: "/cache".into(),
            device_name: "test".into(),
            device_size,
            block_size,
            wal_sync: false,
        };
        let opening = WriteCache::<Initializing>::open(config, None).ok().unwrap();
        let opened = opening.recover(Ok(&vec![]), false, false).ok().unwrap();
        let (cache, _) = opened.cache.finish_recovery();
        Device {
            cache,
            blocks_per_chunk: (128 * 1024 * 1024 / block_size) as u32,
            active: vec![0; device_size as usize],
            flushing: None,
            wal: vec![],
            metadata: None,
            packs: HashMap::new(),
            manifest: HashMap::new(),
            clean: HashMap::new(),
        }
    }

    /// A device of 1 MiB with blocks of 4 KiB.
    fn small() -> Device {
        Device::with_config(1024 * 1024, 4096)
    }

    fn state(&self, block: usize) -> u8 {
        self.cache.inner.blocks.get(block)
    }

    /// What a read that looks at the active file alone sees.
    fn read_local_only(&self, offset: u64, len: usize) -> Vec<u8> {
        match self.cache.read_local_only(offset, len).ok().unwrap() {
            Some(c) => self.active[c.offset as usize..c.offset as usize + c.len].to_vec(),
            None => vec![],
        }
    }

    fn promote(&mut self, mut p: Promotion) -> Result<(), CacheError> {
        let mut buf: Vec<u8> = vec![];
        let mut action = self.cache.inner.promote_next(&mut p);
        loop {
            action = match action {
                PromoteAction::ReadFlushing { offset, len } => {
                    let from = offset as usize;
                    buf = self.flushing.as_ref().unwrap()[from..from + len].to_vec();
                    self.cache.inner.promote_read(&mut p, &buf)
                }
                PromoteAction::WriteActive { offset, len } => {
                    let from = offset as usize;
                    self.active[from..from + len].copy_from_slice(&buf);
                    self.cache.inner.promote_written(&mut p)
                }
                PromoteAction::WaitForRelease { .. } => self.cache.inner.promote_timed_out(&mut p),
                PromoteAction::Done => return Ok(()),
                PromoteAction::Failed(e) => return Err(e),
            }
        }
    }

    fn write(&mut self, offset: u64, data: &[u8]) -> Result<(), CacheError> {
        if let Some(p) = self.cache.write(offset, data.len() as u64)? {
            self.promote(p)?;
            self.cache.claim_range(offset, data.len() as u64);
            let from = offset as usize;
            self.active[from..from + data.len()].copy_from_slice(data);
            self.wal.extend(self.cache.commit_write(offset, data));
        }
        Ok(())
    }

    fn zero(&mut self, offset: u64, len: u64) -> Result<(), CacheError> {
        if let Some(p) = self.cache.zero_range(offset, len)? {
            self.promote(p)?;
            self.cache.claim_range(offset, len);
            for (at, n) in zero_range_chunks(offset, len) {
                self.active[at as usize..at as usize + n].fill(0);
            }
            self.wal.extend(self.cache.commit_zero_range(offset, len));
        }
        Ok(())
    }

    fn views(&self, ids: &[u64]) -> Vec<PackView> {
        ids.iter().map(|id| view(*id, Some(self.packs[id].entries.clone()))).collect()
    }

    fn block_data(&self, block: u64) -> Located {
        let copied = |file: &Vec<u8>, offset: u64, len: usize| {
            file[offset as usize..offset as usize + len].to_vec()
        };
        match self.cache.sync_read_local_block(block) {
            LocalRead::Active(c) => return Located::Data(copied(&self.active, c.offset, c.len)),
            LocalRead::Flushing(c) => {
                return Located::Data(copied(self.flushing.as_ref().unwrap(), c.offset, c.len))
            }
            LocalRead::Beyond => return Located::Zero,
            LocalRead::Evicted => {}
        }
        let chunk_idx = (block / self.blocks_per_chunk as u64) as u32;
        let place = (block % self.blocks_per_chunk as u64) as u32;
        let views = self.views(self.manifest.get(&chunk_idx).map_or(&[], |ids| ids.as_slice()));
        match locate_block(&views, place) {
            BlockLocation::Zero => Located::Zero,
            BlockLocation::Stored(at) if self.clean.contains_key(&at.hash) => {
                Located::Data(self.clean[&at.hash].clone())
            }
            BlockLocation::Stored(at) => Located::NeedsFetch {
                pack_id: at.pack_id,
                chunk_idx,
                expected_hash: at.hash,
                offset: at.pack_offset,
                comp_len: at.comp_length,
            },
            BlockLocation::NeedsIndices(_) => unreachable!(),
        }
    }

    fn read(&self, offset: u64, len: usize) -> Result<Vec<u8>, CacheError> {
        let (first, last) = match self.cache.read(offset, len)? {
            ReadStart::Empty => return Ok(vec![]),
            ReadStart::Pread(c) => {
                return Ok(self.active[c.offset as usize..c.offset as usize + c.len].to_vec())
            }
            ReadStart::Blocks { first, last } => (first, last),
        };
        let located = (first..=last).map(|b| self.block_data(b)).collect();
        let parts = partition_located(located, self.cache.block_size());
        let mut blocks = parts.blocks;
        let mut fetched = vec![];
        for group in group_fetches(&parts.fetch) {
            let pack = &self.packs[&group.pack_id];
            let pieces: Vec<Vec<u8>> = match plan_group(&group.blocks) {
                FetchPlan::Individually => group
                    .blocks
                    .iter()
                    .map(|b| pack.data[b.offset as usize..(b.offset + b.comp_len) as usize].to_vec())
                    .collect(),
                FetchPlan::Range { start, len } => {
                    let data = pack.data[start as usize..(start + len) as usize].to_vec();
                    split_range(&group.blocks, start, &data)
                }
            };
            let decoded = pieces.into_iter().map(|data| (data.clone(), hash_of(&data))).collect();
            let done = accept_fetched(&group.blocks, decoded);
            done.result?;
            fetched.extend(done.verified.into_iter().map(|(idx, _, data)| (idx, data)));
        }
        fill_fetched(&mut blocks, fetched);
        assemble_read(&blocks, offset, len, self.cache.block_size())
    }

    fn rotate(&mut self) -> Vec<usize> {
        let size = self.active.len();
        self.flushing = Some(std::mem::replace(&mut self.active, vec![0; size]));
        self.cache.rotate_and_snapshot(RotationFiles::Swapped).unwrap()
    }

    /// Flushes, with `meanwhile` run between the rotation and the upload.
    fn flush_with(
        &mut self,
        fail: bool,
        mut meanwhile: impl FnMut(&mut Device),
    ) -> Option<FlushStats> {
        match self.cache.flush_start(self.flushing.is_some()) {
            FlushStart::Skip => return Some(FlushStats::default()),
            FlushStart::RemoveOrphan => self.flushing = None,
            FlushStart::Rotate => {}
        }
        let crcs = self.cache.inner.page_crcs.drain_page_crcs();
        let snapshot = self.rotate();
        if snapshot.is_empty() {
            self.cache.flush_empty();
            self.flushing = None;
            return Some(FlushStats::default());
        }
        meanwhile(self);
        if fail {
            let copies = self.cache.inner.copies_back(&snapshot);
            let mut copied = vec![];
            for c in copies {
                if let Some(c) = c {
                    let (from, to) = (c.offset as usize, c.offset as usize + c.len);
                    let data = self.flushing.as_ref().unwrap()[from..to].to_vec();
                    self.active[from..to].copy_from_slice(&data);
                    copied.push(true);
                } else {
                    copied.push(false);
                }
            }
            self.cache.finish_failed_flush(&snapshot, &copied);
            self.flushing = None;
            return None;
        }
        let mut run = FlushRun::new();
        let block_size = self.cache.block_size();
        for part in partition_by_chunk(&snapshot, self.blocks_per_chunk) {
            let mut results = vec![];
            for &idx in &part.blocks {
                let from = idx * block_size;
                let to = (from + block_size).min(self.active.len());
                let file = self.flushing.as_ref().unwrap();
                let block = pad_block(file[from..to].to_vec(), block_size);
                let state = self.cache.inner.blocks.get(idx);
                results.push(Ok(match compute_block(idx, &block, crcs.get(&idx), state, ZERO_HASH) {
                    BlockStep::Done(result) => result,
                    BlockStep::Hash => BlockResult::Computed {
                        chunk_index: idx,
                        hash: hash_of(&block),
                        compressed: Some(block),
                    },
                }));
            }
            let batch = match compute_flush_batch(results) {
                Ok(batch) => batch,
                Err(_) => unreachable!(),
            };
            run.add_batch(&batch.stats);
            let copies = self.cache.inner.copies_back(&batch.skipped);
            let copied: Vec<bool> = copies
                .into_iter()
                .map(|c| match c {
                    Some(c) => {
                        let (from, to) = (c.offset as usize, c.offset as usize + c.len);
                        let data = self.flushing.as_ref().unwrap()[from..to].to_vec();
                        self.active[from..to].copy_from_slice(&data);
                        true
                    }
                    None => false,
                })
                .collect();
            self.cache.inner.finish_skipped(&batch.skipped, &copied);
            let ids = self.manifest.entry(part.chunk).or_default().clone();
            let views = self.views(&ids);
            let existing = merge_indices(&views);
            let uploads = index_uploads(batch.to_upload);
            let plan =
                plan_pack(&batch.computed, existing.as_ref(), &uploads, ZERO_HASH, self.blocks_per_chunk);
            run.add_plan(&plan);
            let mut entries = vec![];
            let mut data = vec![];
            for b in &plan.blocks {
                entries.push(PackIndexEntry {
                    hash: b.hash,
                    chunk_offset: b.chunk_offset,
                    offset: data.len() as u32,
                    comp_length: b.data.len() as u32,
                });
                data.extend_from_slice(&b.data);
            }
            let pack_id = entries.iter().fold(part.chunk as u64, |h, e| {
                h.wrapping_mul(31).wrapping_add(e.hash as u64).wrapping_add(e.chunk_offset as u64)
            });
            if run.needs_upload(part.chunk, &plan, pack_id, &ids) {
                let lengths = entries.iter().map(|e| e.comp_length).collect();
                self.packs.insert(pack_id, StoredPack { entries, data });
                run.uploaded(part.chunk, pack_id, &lengths);
            }
        }
        let end = run.end(Ok(()));
        for (chunk, id) in &end.appends {
            self.manifest.entry(*chunk).or_default().push(*id);
        }
        let appended = !end.appends.is_empty();
        let stats = self.cache.finish_flush(&end.evict, appended, end.result.unwrap());
        assert_eq!(self.cache.needs_manifest_sync(), appended);
        if appended {
            assert_eq!(self.cache.flush_start(true), FlushStart::Skip);
        }
        let etag = self.cache.expected_etag().map(String::from);
        assert!(self.cache.manifest_synced(Ok(etag)).is_ok());
        // The manifest is synced, and the flushing file no longer needed.
        let checkpoint = self.cache.checkpoint();
        self.metadata = Some(checkpoint.metadata);
        if checkpoint.truncate_wal {
            self.wal.clear();
        }
        self.cache.checkpointed(checkpoint.settles);
        self.flushing = None;
        Some(stats)
    }

    fn flush(&mut self) -> FlushStats {
        self.flush_with(false, |_| {}).unwrap()
    }

    fn snapshot(&mut self) -> SnapshotResult {
        let sequence = self.cache.last_persisted_seq();
        let stats = self.flush();
        assert!(self.cache.manifest_synced(Ok(Some("v1".into()))).is_ok());
        let stored = after_snapshot_put(0, true);
        self.cache.snapshot(stats, sequence, Some("v1".into()), stored, vec![1])
    }

    /// Opens the device again from what is on disk, as after a crash.
    fn reopen(self) -> Device {
        let config = self.cache.inner.config.clone();
        let opening = match WriteCache::<Initializing>::open(config, self.metadata.as_ref()) {
            Ok(opening) => opening,
            Err(_) => panic!("cannot be opened"),
        };
        let min_seq = opening.wal_min_seq();
        let replay: Vec<WalEntry> =
            self.wal.iter().filter(|e| e.sequence > min_seq).copied().collect();
        let opened = match opening.recover(Ok(&replay), false, self.flushing.is_some()) {
            Ok(opened) => opened,
            Err(_) => panic!("cannot be recovered"),
        };
        let mut active = self.active;
        for c in &opened.copies {
            let (from, to) = (c.offset as usize, c.offset as usize + c.len);
            active[from..to].copy_from_slice(&self.flushing.as_ref().unwrap()[from..to]);
        }
        let flushing = if opened.remove_flushing { None } else { self.flushing };
        let (cache, metadata) = opened.cache.finish_recovery();
        Device {
            cache,
            blocks_per_chunk: self.blocks_per_chunk,
            active,
            flushing,
            wal: replay,
            metadata: metadata.or(self.metadata),
            packs: self.packs,
            manifest: self.manifest,
            clean: HashMap::new(),
        }
    }
}

fn pattern(seed: u8, len: usize) -> Vec<u8> {
    (0..len).map(|i| (i as u8).wrapping_mul(31).wrapping_add(seed) | 1).collect()
}

#[test]
fn test_is_zero_block() {
    let zeros = vec![0u8; 4096];
    assert!(is_zero_block(&zeros), "all zeros should return true");

    let mut non_zeros = vec![0u8; 4096];
    non_zeros[0] = 1;
    assert!(!is_zero_block(&non_zeros), "first byte non-zero");

    non_zeros[0] = 0;
    non_zeros[4095] = 1;
    assert!(!is_zero_block(&non_zeros), "last byte non-zero");

    non_zeros[4095] = 0;
    non_zeros[2048] = 1;
    assert!(!is_zero_block(&non_zeros), "middle byte non-zero");

    let empty: Vec<u8> = vec![];
    assert!(is_zero_block(&empty), "empty slice is 'all zeros'");
}

#[test]
fn fresh_cache_is_empty() {
    let dev = Device::new(10);
    assert_eq!(dev.cache.device_size(), 10 * BLOCK as u64);
    assert_eq!(dev.cache.block_size(), BLOCK);
    assert_eq!(dev.cache.dirty_block_count(), 0);
    assert_eq!(dev.cache.syncing_block_count(), 0);
    assert_eq!(dev.cache.pending_crc_count(), 0);
    assert_eq!(dev.cache.recovery_warning_count(), 0);
    assert_eq!(dev.cache.last_persisted_seq(), 0);
    assert!(!dev.cache.is_block_present(0));
    assert!(WriteCache::open_fresh_active(config(0), false).is_err());
}

#[test]
fn written_bytes_read_back() {
    let mut dev = Device::new(10);
    let data = pattern(3, 100);
    dev.write(4096, &data).unwrap();
    assert_eq!(dev.read(4096, 100).unwrap(), data);
    assert_eq!(dev.cache.dirty_block_count(), 1);
    assert_eq!(dev.cache.block_state(0), BlockState::Dirty);
    assert_eq!(dev.wal.len(), 1);
    assert_eq!(dev.wal[0], WalEntry { block_index: 0, sequence: 1 });
}

#[test]
fn writes_beyond_the_device_are_refused() {
    let mut dev = Device::new(2);
    let end = 2 * BLOCK as u64;
    let refused = |r| matches!(r, Err(CacheError::OffsetOutOfBounds(o, s)) if o == end + 1 && s == end);
    assert!(refused(dev.write(end - 1, &[1, 2])));
    assert!(refused(dev.zero(end - 1, 2)));
    assert!(refused(dev.read(end - 1, 2).map(|_| ())));
    assert!(dev.write(end, &[]).is_ok());
    assert_eq!(dev.read(end, 0).unwrap(), []);
    assert_eq!(dev.cache.dirty_block_count(), 0);
}

#[test]
fn fenced_cache_takes_no_writes() {
    let mut dev = Device::new(2);
    dev.cache.inner.fenced = true;
    dev.cache.inner.current_generation = 4;
    let fenced = |e: Option<CacheError>| {
        matches!(e, Some(CacheError::Fenced { held: 4, superseded_by: 0 }))
    };
    assert!(fenced(dev.write(0, &[1]).err()));
    assert!(fenced(dev.zero(0, 1).err()));
    assert!(fenced(dev.zero(0, 0).err()));
    assert!(fenced(dev.cache.write_with_eviction_check(0, 1).err()));
    assert!(fenced(dev.cache.pre_write(0, 1).err()));
    assert!(fenced(dev.cache.pwrite_and_commit(0, 1).err()));
    assert!(fenced(dev.cache.zc_promote_for_write_with(0, 1).err()));
    assert!(dev.cache.try_claim_block(1));
    assert!(fenced(dev.cache.write_materialized(BLOCK as u64, 1, 1, true).err()));
    assert_eq!(dev.state(0), SparseBlockState::NOT_PRESENT);
}

#[test]
fn flushed_blocks_read_back() {
    let mut dev = Device::new(10);
    let a = pattern(1, BLOCK);
    let b = pattern(2, BLOCK);
    dev.write(0, &a).unwrap();
    dev.write(5 * BLOCK as u64, &b).unwrap();
    let stats = dev.flush();
    assert_eq!(stats.blocks_claimed, 2);
    assert_eq!(stats.packs_uploaded, 2);
    assert_eq!(stats.bytes_uploaded, 2 * BLOCK as u64);
    assert_eq!(dev.cache.dirty_block_count(), 0);
    assert_eq!(dev.cache.syncing_block_count(), 0);
    assert!(!dev.cache.is_block_present(0));
    // The data now comes out of the packs.
    assert_eq!(dev.read(0, BLOCK).unwrap(), a);
    assert_eq!(dev.read(5 * BLOCK as u64, BLOCK).unwrap(), b);
    assert_eq!(dev.read(BLOCK as u64, BLOCK).unwrap(), vec![0; BLOCK]);
    assert_eq!(dev.flush(), FlushStats::default());
}

#[test]
fn zero_block_needs_no_pack() {
    let mut dev = Device::new(4);
    dev.write(0, &vec![0; BLOCK]).unwrap();
    let stats = dev.flush();
    assert_eq!(stats.blocks_claimed, 1);
    assert_eq!(stats.packs_uploaded, 0);
    assert_eq!(dev.read(0, BLOCK).unwrap(), vec![0; BLOCK]);
}

#[test]
fn equal_blocks_are_uploaded_once() {
    let mut dev = Device::new(4);
    let a = pattern(1, BLOCK);
    dev.write(0, &a).unwrap();
    dev.write(BLOCK as u64, &a).unwrap();
    dev.write(2 * BLOCK as u64, &pattern(2, BLOCK)).unwrap();
    let stats = dev.flush();
    assert_eq!(stats.blocks_claimed, 3);
    assert_eq!(stats.blocks_deduped, 1);
    assert_eq!(dev.read(0, BLOCK).unwrap(), a);
    assert_eq!(dev.read(BLOCK as u64, BLOCK).unwrap(), a);
}

#[test]
fn unchanged_block_needs_no_pack() {
    let mut dev = Device::new(4);
    let a = pattern(1, BLOCK);
    dev.write(0, &a).unwrap();
    assert_eq!(dev.flush().packs_uploaded, 1);
    dev.write(0, &a).unwrap();
    let stats = dev.flush();
    assert_eq!(stats.blocks_cross_deduped, 1);
    assert_eq!(stats.packs_uploaded, 0);
    assert_eq!(dev.read(0, BLOCK).unwrap(), a);
}

#[test]
fn zeroed_block_is_overridden() {
    let mut dev = Device::new(4);
    dev.write(0, &pattern(1, BLOCK)).unwrap();
    dev.flush();
    dev.zero(0, BLOCK as u64).unwrap();
    let stats = dev.flush();
    assert_eq!(stats.packs_uploaded, 1);
    assert_eq!(stats.bytes_uploaded, 0);
    assert_eq!(dev.read(0, BLOCK).unwrap(), vec![0; BLOCK]);
}

#[test]
fn write_during_a_flush_stays_dirty() {
    let mut dev = Device::new(4);
    let old = pattern(1, BLOCK);
    dev.write(0, &old).unwrap();
    let patch = pattern(9, 100);
    let stats = dev
        .flush_with(false, |dev| {
            assert_eq!(dev.cache.block_state(0), BlockState::Syncing);
            assert_eq!(dev.read(0, BLOCK).unwrap(), pattern(1, BLOCK));
            dev.write(50, &pattern(9, 100)).unwrap();
        })
        .unwrap();
    assert_eq!(stats.blocks_cas_failed, 1);
    assert_eq!(dev.cache.dirty_block_count(), 1);
    assert_eq!(dev.cache.syncing_block_count(), 0);
    let mut expected = old;
    expected[50..150].copy_from_slice(&patch);
    assert_eq!(dev.read(0, BLOCK).unwrap(), expected);
    dev.flush();
    assert_eq!(dev.read(0, BLOCK).unwrap(), expected);
}

#[test]
fn failed_flush_loses_nothing() {
    let mut dev = Device::new(4);
    let a = pattern(1, BLOCK);
    dev.write(0, &a).unwrap();
    dev.write(BLOCK as u64, &a).unwrap();
    let failed = dev.flush_with(true, |dev| {
        dev.write(BLOCK as u64, &pattern(2, BLOCK)).unwrap();
    });
    assert!(failed.is_none());
    assert_eq!(dev.cache.dirty_block_count(), 2);
    assert_eq!(dev.cache.syncing_block_count(), 0);
    assert_eq!(dev.read(0, BLOCK).unwrap(), a);
    assert_eq!(dev.read(BLOCK as u64, BLOCK).unwrap(), pattern(2, BLOCK));
    assert_eq!(dev.flush().blocks_claimed, 2);
    assert_eq!(dev.read(0, BLOCK).unwrap(), a);
}

#[test]
fn block_without_its_data_is_given_up() {
    let mut dev = Device::new(4);
    dev.write(0, &pattern(1, BLOCK)).unwrap();
    let snapshot = dev.rotate();
    assert_eq!(snapshot, [0]);
    // The data could not be copied back.
    dev.cache.finish_failed_flush(&snapshot, &vec![false]);
    assert_eq!(dev.cache.block_state(0), BlockState::NotPresent);
    assert_eq!(dev.cache.syncing_block_count(), 0);
    assert_eq!(dev.cache.dirty_block_count(), 0);
}

#[test]
fn damaged_block_is_not_uploaded() {
    let mut dev = Device::new(4);
    dev.write(0, &pattern(1, BLOCK)).unwrap();
    dev.write(BLOCK as u64, &pattern(2, BLOCK)).unwrap();
    dev.active[17] ^= 0xff;
    let stats = dev.flush();
    assert_eq!(stats.blocks_crc_mismatched, 1);
    assert_eq!(dev.cache.dirty_block_count(), 1);
    assert_eq!(dev.cache.block_state(1), BlockState::NotPresent);
    // The next cycle has no checksums any more and takes the block as it is.
    assert_eq!(dev.flush().blocks_claimed, 1);
    assert_eq!(dev.cache.dirty_block_count(), 0);
}

#[test]
fn checksums_cover_whole_pages() {
    let mut crcs = PageCrcs::new(BLOCK);
    let data = pattern(5, BLOCK);
    crcs.capture_page_crcs(BLOCK, 0, &data);
    let drained = crcs.drain_page_crcs();
    assert_eq!(crcs.len(), 0);
    assert_eq!(drained[&0].len(), 2);
    assert_eq!(drained[&0][0], crc_fast::crc32_iscsi(&data[..4096]));
    assert!(verify_page_crcs(&data, &drained[&0]));
    assert!(!verify_page_crcs(&pattern(6, BLOCK), &drained[&0]));

    // A page that is covered in part has no checksum: it is passed over.
    crcs.capture_page_crcs(BLOCK, 100, &data[..4096]);
    let drained = crcs.drain_page_crcs();
    assert!(drained.get(&0).map_or(true, |c| c.iter().all(|&c| c == 0)));

    crcs.capture_zero_page_crcs(BLOCK, 0, BLOCK as u64);
    assert!(verify_page_crcs(&vec![0; BLOCK], &crcs.drain_page_crcs()[&0]));
    assert_eq!(crc_fast::crc32_iscsi(b"123456789"), 0xE306_9283);
}

#[test]
fn metadata_survives_a_restart() {
    let mut dev = Device::new(10);
    let data = pattern(4, BLOCK);
    dev.write(3 * BLOCK as u64, &data).unwrap();
    let (metadata, draining) = dev.cache.shutdown();
    draining.finish();
    let config = config(10);
    let opening = match WriteCache::<Initializing>::open(config, Some(&metadata)) {
        Ok(opening) => opening,
        Err(_) => panic!("cannot be opened"),
    };
    assert_eq!(opening.wal_min_seq(), 1);
    let opened = match opening.recover(Ok(&vec![]), false, false) {
        Ok(opened) => opened,
        Err(_) => panic!("cannot be recovered"),
    };
    let cache = opened.cache.skip_recovery_for_test();
    assert_eq!(cache.dirty_block_count(), 1);
    assert!(cache.is_block_present(3));
    assert_eq!(cache.last_persisted_seq(), 1);
}

#[test]
fn metadata_bytes() {
    let mut states = SparseStateMap::new(3);
    states.transition_to_dirty(2);
    let file = encode_metadata(3 * BLOCK as u64, BLOCK as u64, &states, 7, 6);
    assert_eq!(file.len(), 44 + 5 + 16 + 4);
    assert_eq!(&file[..8], b"GLIDECCH");
    assert_eq!(file[8..12], 5u32.to_le_bytes());
    assert_eq!(file[36..44], 1u64.to_le_bytes());
    assert_eq!(file[44..49], [2, 0, 0, 0, SparseBlockState::DIRTY]);
    assert_eq!(file[49..57], 7u64.to_le_bytes());
    assert_eq!(file[57..65], 6u64.to_le_bytes());
    assert_eq!(file[65..], crc_fast::crc32_iscsi(&file[..65]).to_le_bytes());

    let config = config(3);
    let loaded = load_metadata(&config, Some(&file)).ok().unwrap();
    assert_eq!(loaded.states.iter_present(), [(2, SparseBlockState::DIRTY)]);
    assert_eq!((loaded.dirty_count, loaded.max_sequence, loaded.rotation_seq), (1, 7, 6));

    let is_io = |r: Result<_, CacheError>, kind| matches!(r, Err(CacheError::Io(e)) if e.kind == kind);
    assert!(is_io(load_metadata(&config, Some(&file[..35].to_vec())).map(|_| ()), IoErrorKind::UnexpectedEof));
    let mut damaged = file.clone();
    damaged[50] ^= 1;
    assert!(matches!(load_metadata(&config, Some(&damaged)), Err(CacheError::InvalidMetadata)));
    let mut old = file.clone();
    old[8] = 3;
    assert!(is_io(load_metadata(&config, Some(&old)).map(|_| ()), IoErrorKind::InvalidData));
    let mut other = file;
    other[0] = b'X';
    assert!(matches!(load_metadata(&config, Some(&other)), Err(CacheError::InvalidMetadata)));
    assert!(load_metadata(&config, None).ok().unwrap().states.iter_present().is_empty());
}

#[test]
fn log_is_replayed() {
    let mut dev = Device::new(10);
    let a = pattern(1, BLOCK);
    let b = pattern(2, 500);
    dev.write(0, &a).unwrap();
    dev.metadata = Some(dev.cache.save_metadata());
    dev.write(7 * BLOCK as u64 + 9, &b).unwrap();
    // The second write is only in the log.
    let dev = dev.reopen();
    assert_eq!(dev.cache.dirty_block_count(), 2);
    assert_eq!(dev.read(0, BLOCK).unwrap(), a);
    assert_eq!(dev.read(7 * BLOCK as u64 + 9, 500).unwrap(), b);
    assert_eq!(dev.cache.last_persisted_seq(), 2);
}

#[test]
fn crash_between_rotation_and_upload() {
    let mut dev = Device::new(4);
    let a = pattern(1, BLOCK);
    dev.write(0, &a).unwrap();
    dev.write(BLOCK as u64, &a).unwrap();
    dev.rotate();
    // A write after the rotation, then a crash before the upload.
    dev.write(BLOCK as u64, &pattern(2, BLOCK)).unwrap();
    dev.metadata = Some(dev.cache.save_metadata());
    let dev = dev.reopen();
    assert!(dev.flushing.is_none());
    assert_eq!(dev.cache.block_state(0), BlockState::Dirty);
    assert_eq!(dev.read(0, BLOCK).unwrap(), a);
    assert_eq!(dev.read(BLOCK as u64, BLOCK).unwrap(), pattern(2, BLOCK));
}

#[test]
fn crash_before_the_manifest_is_synced() {
    let mut dev = Device::new(4);
    let a = pattern(1, BLOCK);
    let b = pattern(2, BLOCK);
    dev.write(0, &a).unwrap();
    dev.write(BLOCK as u64, &a).unwrap();
    dev.metadata = Some(dev.cache.save_metadata());
    dev.wal.clear();
    let (metadata, manifest) = (dev.metadata.clone(), dev.manifest.clone());
    let flushed = dev.active.clone();
    // Written after the rotation, and logged.
    dev.flush_with(false, |dev| dev.write(3 * BLOCK as u64, &b).unwrap());
    let wal = vec![WalEntry { block_index: 3, sequence: 3 }];
    assert_eq!(dev.state(0), SparseBlockState::NOT_PRESENT);
    // What is on disk if neither the manifest nor a checkpoint got there.
    let dev = Device { metadata, manifest, wal, flushing: Some(flushed), ..dev };
    let dev = dev.reopen();
    assert_eq!(dev.cache.dirty_block_count(), 3);
    assert_eq!(dev.read(0, 2 * BLOCK).unwrap(), [a.clone(), a].concat());
    assert_eq!(dev.read(3 * BLOCK as u64, BLOCK).unwrap(), b);
}

#[test]
fn blocks_that_overlap_are_not_fetched_together() {
    let fetch = |idx, offset, comp_len| FetchEntry {
        idx,
        pack_id: 1,
        chunk_idx: 0,
        expected_hash: 9,
        offset,
        comp_len,
    };
    assert!(can_fetch_group(&vec![fetch(0, 5, 10)]));
    assert!(can_fetch_group(&vec![fetch(0, 0, 10), fetch(1, 10, 5)]));
    assert!(can_fetch_group(&vec![fetch(0, 0, 10), fetch(1, 1000, 5)]));
    assert!(can_fetch_group(&vec![fetch(0, 0, 10), fetch(1, 10, 0)]));
    assert!(!can_fetch_group(&vec![]));
    assert!(!can_fetch_group(&vec![fetch(0, 0, 10), fetch(1, 5, 10)]));
    assert!(!can_fetch_group(&vec![fetch(0, 0, 10), fetch(1, 0, 0)]));
    assert!(!can_fetch_group(&vec![fetch(0, u32::MAX, 1)]));
}

#[test]
fn counters_of_a_flush_may_not_fit() {
    let stats = |blocks_claimed| FlushStats { blocks_claimed, ..FlushStats::default() };
    let mut run = FlushRun::new();
    run.add_batch(&stats(usize::MAX));
    assert!(run.can_add_batch(&stats(0)));
    assert!(!run.can_add_batch(&stats(1)));
    assert!(run.can_count_upload(&vec![1, 2]));
    run.stats.bytes_uploaded = u64::MAX - 2;
    assert!(run.can_count_upload(&vec![1, 1]));
    assert!(!run.can_count_upload(&vec![1, 2]));
    run.stats.packs_uploaded = usize::MAX;
    assert!(!run.can_count_upload(&vec![]));
}

#[test]
fn zeros_written_after_a_rotation_survive() {
    let mut dev = Device::new(2);
    dev.write(0, &pattern(1, BLOCK)).unwrap();
    dev.rotate();
    dev.zero(0, BLOCK as u64).unwrap();
    dev.metadata = Some(dev.cache.save_metadata());
    let dev = dev.reopen();
    assert_eq!(dev.read(0, BLOCK).unwrap(), vec![0; BLOCK]);
}

#[test]
fn recovery_without_a_log_fails() {
    let opening = WriteCache::<Initializing>::open(config(2), None).ok().unwrap();
    let failed = opening.recover(Err("torn"), false, false);
    assert!(matches!(failed, Err(CacheError::Io(e)) if e.message.ends_with("torn")));
    assert!(WriteCache::<Initializing>::open(config(0), None).is_err());
}

#[test]
fn passive_recovery_touches_no_files() {
    let opening = WriteCache::<Initializing>::open(config(2), None).ok().unwrap();
    let log = vec![WalEntry { block_index: 1, sequence: 5 }];
    let opened = opening.recover(Ok(&log), true, true).ok().unwrap();
    assert!(!opened.rewrite_wal && !opened.remove_flushing && opened.copies.is_empty());
    let mut cache = opened.cache.skip_recovery_for_test();
    assert_eq!(cache.flush_start(false), FlushStart::Skip);
    assert!(!cache.checkpoint().truncate_wal);
    let tail = vec![WalEntry { block_index: 0, sequence: 6 }, WalEntry { block_index: 9, sequence: 7 }];
    assert_eq!(cache.replay_wal_tail(Ok(&tail)).ok(), Some(2));
    assert_eq!((cache.dirty_block_count(), cache.last_persisted_seq()), (2, 7));
    assert!(cache.replay_wal_tail(Err("torn")).is_err());
    cache.set_handoff_phase(HandoffPhase::Idle);
    assert_eq!(cache.flush_start(false), FlushStart::Rotate);
    assert!(cache.checkpoint().truncate_wal);
    cache.set_freeze_in_progress(true);
    assert!(!cache.checkpoint().truncate_wal);
}

#[test]
fn log_that_cannot_be_opened() {
    let io = |kind| IoError { kind, message: "no".into() };
    assert!(matches!(after_wal_open(Ok(()), "p".into(), true), WalOpenAction::Proceed));
    assert!(matches!(
        after_wal_open(Err(io(IoErrorKind::WouldBlock)), "p".into(), true),
        WalOpenAction::Fail(CacheError::Locked(p)) if p == "p"
    ));
    assert!(matches!(
        after_wal_open(Err(io(IoErrorKind::Other)), "p".into(), true),
        WalOpenAction::RemoveAndRetry
    ));
    assert!(matches!(
        after_wal_open(Err(io(IoErrorKind::Other)), "p".into(), false),
        WalOpenAction::Fail(CacheError::Io(_))
    ));
}

#[test]
fn rotation_is_marked() {
    let mut dev = Device::new(2);
    dev.write(0, &[1]).unwrap();
    dev.rotate();
    assert!(dev.cache.inner.flushing_active);
    assert!(!dev.cache.try_pread_local(0, 1));
    assert_eq!(dev.cache.flush_start(true), FlushStart::Skip);
    dev.cache.flush_empty();
    assert!(!dev.cache.inner.flushing_active);
    assert_eq!(dev.cache.flush_start(true), FlushStart::RemoveOrphan);
}

#[test]
fn unsynced_flush_keeps_its_file() {
    let mut dev = Device::new(2);
    let lost = || Err(ContentStoreError::Other("503".into()));
    dev.write(0, &[1]).unwrap();
    let claimed = dev.rotate();
    dev.cache.finish_flush(&claimed, true, FlushStats::default());
    assert!(dev.cache.needs_manifest_sync());
    assert_eq!(dev.cache.flush_start(true), FlushStart::Skip);
    assert_eq!(dev.cache.flush_start(false), FlushStart::Rotate);
    let early = dev.cache.checkpoint().settles;
    assert!(!early);
    assert!(dev.cache.manifest_synced(lost()).is_err());
    assert_eq!(dev.cache.flush_start(true), FlushStart::Skip);
    assert!(dev.cache.manifest_synced(Ok(None)).is_ok());
    assert!(!dev.cache.needs_manifest_sync());
    assert_eq!(dev.cache.flush_start(true), FlushStart::Skip);
    // A checkpoint made before the manifest was synced does not count.
    dev.cache.checkpointed(early);
    assert_eq!(dev.cache.flush_start(true), FlushStart::Skip);
    let settles = dev.cache.checkpoint().settles;
    dev.cache.checkpointed(settles);
    assert_eq!(dev.cache.flush_start(true), FlushStart::RemoveOrphan);
    // A flush without packs leaves nothing to sync.
    dev.cache.finish_flush(&vec![], false, FlushStats::default());
    assert_eq!(dev.cache.flush_start(true), FlushStart::RemoveOrphan);
}

#[test]
fn rotation_that_fails() {
    let io = || IoError { kind: IoErrorKind::Other, message: "disk".into() };
    let mut dev = Device::new(2);
    dev.write(0, &[1]).unwrap();
    assert!(dev.cache.rotate_and_snapshot(RotationFiles::RenameFailed(io())).is_err());
    assert!(!dev.cache.inner.flushing_active);
    assert_eq!(dev.cache.inner.rotation_seq, 0);
    assert_eq!(dev.cache.block_state(0), BlockState::Dirty);
    let undone = RotationFiles::OpenFailed { error: io(), undo: None };
    assert!(dev.cache.rotate_data_file(undone).is_err());
    assert!(!dev.cache.inner.flushing_active);
    assert!(dev.cache.rotate_data_file(RotationFiles::Swapped).is_ok());
    assert_eq!(dev.cache.block_state(0), BlockState::Dirty);
}

#[test]
fn eviction_check_refuses_blocks_without_data() {
    let mut dev = Device::new(2);
    let p = dev.cache.write_with_eviction_check(0, 10).ok().unwrap().unwrap();
    assert!(matches!(dev.promote(p), Err(CacheError::BlockEvicted)));
    // A plain write goes on.
    let p = dev.cache.write(0, 10).ok().unwrap().unwrap();
    assert!(dev.promote(p).is_ok());
}

#[test]
fn two_phase_writes() {
    let mut dev = Device::new(4);
    assert!(dev.cache.has_new_blocks(0, 10));
    assert!(dev.cache.pre_write(0, 10).is_ok());
    assert!(!dev.cache.has_new_blocks(0, 10));
    assert!(dev.cache.has_new_blocks(0, BLOCK as u64 + 1));
    assert!(dev.cache.has_new_blocks(4 * BLOCK as u64, 1));
    assert!(!dev.cache.has_new_blocks(BLOCK as u64, 0));
    assert_eq!(dev.cache.dirty_block_count(), 0);
    assert!(dev.cache.pwrite_and_commit(0, 10).ok().unwrap().is_some());
    assert!(dev.cache.pwrite_and_commit(0, 0).ok().unwrap().is_none());
    assert!(dev.cache.zc_promote_for_write_with(0, 10).ok().unwrap().is_some());
    assert!(dev.cache.zc_promote_for_write_with(0, 0).ok().unwrap().is_none());
    let entries = dev.cache.commit_after_zc_write_with(0, 10);
    assert_eq!(entries.len(), 1);
    assert!(dev.cache.commit_after_zc_write_with(0, 10).is_empty());
    assert_eq!(dev.cache.dirty_block_count(), 1);
    assert!(dev.cache.pre_write(4 * BLOCK as u64, 1).is_err());
    assert_eq!(dev.cache.wal_durability(0), WalDurability::Nothing);
    assert_eq!(dev.cache.wal_durability(1), WalDurability::Flush);
    dev.cache.inner.config.wal_sync = true;
    assert_eq!(dev.cache.wal_durability(1), WalDurability::SyncDataThenWal);
}

#[test]
fn fetched_blocks_land_only_on_their_claim() {
    let mut dev = Device::new(4);
    assert!(dev.cache.try_claim_block(2));
    assert!(!dev.cache.try_claim_block(2));
    let at = 2 * BLOCK as u64;
    let land = |dev: &Device, valid| dev.cache.write_materialized(at, BLOCK as u64, 2, valid).ok();
    assert_eq!(land(&dev, true), Some(Materialization::Land));
    assert_eq!(land(&dev, false), Some(Materialization::Stolen));
    dev.write(at, &[1]).unwrap();
    assert_eq!(land(&dev, true), Some(Materialization::Stolen));
    assert_eq!(dev.cache.write_materialized(at, 0, 2, true).ok(), Some(Materialization::Nothing));
    assert!(dev.cache.write_materialized(4 * BLOCK as u64, 1, 2, true).is_err());
}

#[test]
fn states_of_blocks() {
    let mut map = SparseStateMap::new(100_000);
    assert!(map.try_set_present(99_999));
    assert!(!map.try_set_present(99_999));
    assert_eq!(map.get(99_999), SparseBlockState::CLEAN);
    assert_eq!(map.transition_to_dirty(99_999), DirtyTransition::FromCleanOrNotPresent);
    assert_eq!(map.transition_to_dirty(99_999), DirtyTransition::AlreadyDirty);
    assert!(map.transition_dirty_to_syncing(99_999));
    assert_eq!(map.transition_to_dirty(99_999), DirtyTransition::FromSyncing);
    assert!(!map.transition_syncing_to_not_present(99_999));
    assert_eq!(map.cas(5, SparseBlockState::DIRTY, SparseBlockState::CLEAN), Err(0));
    map.set_present(5);
    assert_eq!(map.iter_present(), [(5, 1), (99_999, 2)]);
    assert_eq!(map.count_present(), 2);
    assert_eq!(map.len(), 100_000);
}

#[test]
fn paths_and_sizes() {
    let mut c = config(1);
    assert_eq!(c.data_path(), "/cache/vm.cache");
    assert_eq!(c.metadata_path(), "/cache/vm.meta");
    assert_eq!(c.wal_path(), "/cache/vm.wal");
    assert_eq!(c.flushing_path(), "/cache/vm.flushing");
    c.cache_dir = "/cache/".into();
    assert_eq!(c.data_path(), "/cache/vm.cache");
    c.device_size += 1;
    assert_eq!(c.num_blocks(), 2);
    assert!(c.validate().is_ok());
    c.block_size = 0;
    assert!(matches!(c.validate(), Err(CacheError::InvalidMetadata)));
}

#[test]
fn last_block_of_an_odd_device() {
    let mut c = config(1);
    c.device_size += 100;
    let mut dev = Device::new(1);
    dev.active = vec![0; c.device_size as usize];
    dev.cache = WriteCache::open_fresh_active(c, false).ok().unwrap();
    let data = pattern(8, 100);
    dev.write(BLOCK as u64, &data).unwrap();
    dev.flush();
    assert_eq!(dev.read(BLOCK as u64, 100).unwrap(), data);
    assert!(matches!(dev.cache.sync_read_local_block(2), LocalRead::Beyond));
}

#[test]
fn read_over_several_chunks() {
    let mut dev = Device::new(12);
    let data = pattern(3, 9 * BLOCK);
    dev.write(BLOCK as u64 / 2, &data).unwrap();
    dev.flush();
    assert_eq!(dev.read(BLOCK as u64 / 2, 9 * BLOCK).unwrap(), data);
    // Some blocks local again, others in packs.
    dev.write(4 * BLOCK as u64, &[9; 10]).unwrap_or_default();
    assert_eq!(dev.read(4 * BLOCK as u64, 10).unwrap(), [9; 10]);
    assert_eq!(dev.read(BLOCK as u64, 10).unwrap(), data[BLOCK / 2..BLOCK / 2 + 10]);
}

#[test]
fn read_plans() {
    let dev = Device::new(4);
    assert_eq!(dev.cache.resolve_read_plan(100, BLOCK).ok(), Some(Some((0, 1))));
    assert_eq!(dev.cache.resolve_read_plan(100, 0).ok(), Some(None));
    assert!(dev.cache.resolve_read_plan(4 * BLOCK as u64, 1).is_err());
    let block = pattern(1, BLOCK);
    let plan =
        build_read_plan(vec![Some(block.clone()), Some(vec![0; BLOCK])], 100, BLOCK, BLOCK).ok().unwrap();
    assert!(matches!(&plan.entries[0].source, ChunkSource::InMemory(d) if *d == block));
    assert!(matches!(plan.entries[1].source, ChunkSource::Zero));
    assert_eq!((plan.entries[0].slice_start, plan.entries[0].slice_len), (100, BLOCK - 100));
    assert_eq!((plan.entries[1].slice_start, plan.entries[1].slice_len), (0, 100));
    assert!(build_read_plan(vec![Some(block), None], 100, BLOCK, BLOCK).is_err());
    assert!(assemble_read(&vec![None], 0, 1, BLOCK).is_err());
}

fn entry(place: u32, hash: u128, offset: u32, comp_length: u32) -> PackIndexEntry {
    PackIndexEntry { hash, chunk_offset: place, offset, comp_length }
}

fn view(pack_id: u64, entries: Option<Vec<PackIndexEntry>>) -> PackView {
    PackView { pack_id, entries }
}

#[test]
fn newest_pack_wins() {
    let old = vec![entry(0, 10, 0, 5), entry(1, 11, 5, 5)];
    let new = vec![entry(0, 20, 0, 6), entry(2, 22, 6, 0)];
    let packs = vec![view(1, Some(old.clone())), view(2, Some(new))];
    assert!(matches!(locate_block(&packs, 0), BlockLocation::Stored(at) if at.hash == 20));
    assert!(matches!(locate_block(&packs, 1), BlockLocation::Stored(at) if at.pack_id == 1));
    assert!(matches!(locate_block(&packs, 2), BlockLocation::Zero));
    assert!(matches!(locate_block(&packs, 3), BlockLocation::Zero));

    // An older entry does not count while a newer index is missing.
    let packs = vec![view(1, Some(old)), view(2, None), view(3, Some(vec![])), view(4, None)];
    assert!(matches!(locate_block(&packs, 0), BlockLocation::NeedsIndices(ids) if ids == [4, 2]));
    let error = || Some(ContentStoreError::Other("gone".into()));
    for place in [0, 9] {
        assert!(matches!(
            locate_after_fetch(&packs, place, error()),
            Err(CacheError::ContentStore(ContentStoreError::Other(_)))
        ));
    }
    assert!(matches!(
        locate_after_fetch(&packs, 0, None),
        Ok(BlockLocation::NeedsIndices(ids)) if ids == [4, 2]
    ));
    assert_eq!(prefetch_chunk(&packs), [2, 4]);
    assert!(merge_indices(&packs).is_none());

    // Once the newer packs have been looked at, the older one answers.
    let old = vec![entry(0, 10, 0, 5), entry(0, 99, 9, 5), entry(1, 11, 5, 5)];
    let packs = vec![view(1, Some(old)), view(2, Some(vec![entry(1, 12, 0, 0)]))];
    assert!(matches!(
        locate_after_fetch(&packs, 0, error()),
        Ok(BlockLocation::Stored(at)) if at.hash == 10
    ));
    assert!(matches!(locate_after_fetch(&packs, 9, None), Ok(BlockLocation::Zero)));
    assert_eq!(merge_indices(&packs), Some(HashMap::from([(0, 10), (1, 12)])));
}

#[test]
fn fetches_are_grouped() {
    let fetch = |idx, pack_id, offset, comp_len| FetchEntry {
        idx,
        pack_id,
        chunk_idx: 0,
        expected_hash: 0,
        offset,
        comp_len,
    };
    let groups = group_fetches(&vec![fetch(0, 1, 50, 10), fetch(1, 2, 0, 5), fetch(2, 1, 0, 40)]);
    assert_eq!(groups.len(), 2);
    assert_eq!(groups[0].blocks.iter().map(|b| b.idx).collect::<Vec<_>>(), [2, 0]);
    assert_eq!(plan_group(&groups[0].blocks), FetchPlan::Range { start: 0, len: 60 });
    assert_eq!(plan_group(&groups[1].blocks), FetchPlan::Individually);
    assert_eq!(
        plan_group(&vec![fetch(0, 1, 0, 10), fetch(1, 1, 100, 10)]),
        FetchPlan::Individually
    );
    let data: Vec<u8> = (0..60).collect();
    let parts = split_range(&groups[0].blocks, 0, &data);
    assert_eq!(parts, [data[..40].to_vec(), data[50..60].to_vec()]);
    assert!(verify_block_hash(5, 5).is_ok());
    assert!(matches!(verify_block_hash(5, 6), Err(CacheError::HashMismatch { .. })));
}

#[test]
fn blocks_by_chunk() {
    let chunks = partition_by_chunk(&vec![0, 3, 4, 9, 11], 4);
    let found: Vec<(u32, Vec<usize>)> = chunks.into_iter().map(|c| (c.chunk, c.blocks)).collect();
    assert_eq!(found, [(0, vec![0, 3]), (1, vec![4]), (2, vec![9, 11])]);
}

#[test]
fn flushed_blocks_are_found_in_the_packs() {
    let old = vec![entry(0, 10, 0, 5), entry(1, 11, 5, 5), entry(2, 12, 10, 5)];
    let existing = HashMap::from([(0, 10), (1, 11), (2, 12)]);
    let uploads = index_uploads(vec![(10, vec![1; 5]), (21, vec![2; 7])]);
    // Unchanged, overwritten, zeroed, and zeros where nothing was before.
    let computed = vec![(4, 10), (5, 21), (6, ZERO_HASH), (7, ZERO_HASH)];
    let plan = plan_pack(&computed, Some(&existing), &uploads, ZERO_HASH, 4);
    assert_eq!(plan.flushed, [4, 5, 6, 7]);
    assert!(plan.missing.is_empty());
    let mut offset = 0;
    let mut new = Vec::new();
    for block in &plan.blocks {
        new.push(entry(block.chunk_offset, block.hash, offset, block.data.len() as u32));
        offset += block.data.len() as u32;
    }
    assert_eq!(new, [entry(1, 21, 0, 7), entry(2, ZERO_HASH, 7, 0)]);
    let packs = vec![view(1, Some(old)), view(2, Some(new))];
    assert!(matches!(locate_block(&packs, 0), BlockLocation::Stored(at) if at.hash == 10));
    assert!(matches!(locate_block(&packs, 1), BlockLocation::Stored(at) if at.hash == 21));
    assert!(matches!(locate_block(&packs, 2), BlockLocation::Zero));
    assert!(matches!(locate_block(&packs, 3), BlockLocation::Zero));
}

#[test]
fn contents_that_come_back_are_read_back() {
    let mut dev = Device::new(4);
    for seed in [1, 2, 1, 1, 2] {
        dev.write(0, &pattern(seed, BLOCK)).unwrap();
        dev.flush();
        assert_eq!(dev.state(0), SparseBlockState::NOT_PRESENT);
        assert_eq!(dev.read(0, BLOCK).unwrap(), pattern(seed, BLOCK));
    }
    assert_eq!(dev.manifest[&0].len(), 4);
    assert_eq!(dev.manifest[&0][0], dev.manifest[&0][2]);
}

#[test]
fn known_packs_are_not_uploaded_again() {
    let plan = plan_pack(&vec![(0, ZERO_HASH)], None, &HashMap::new(), ZERO_HASH, 4);
    let mut run = FlushRun::new();
    assert!(!run.needs_upload(7, &plan, 5, &vec![3, 5]));
    assert_eq!(run.stats.packs_skipped, 1);
    assert_eq!(run.staged, []);
    // One that newer packs may have overridden becomes the newest.
    assert!(!run.needs_upload(7, &plan, 3, &vec![3, 5]));
    assert_eq!(run.stats.packs_skipped, 2);
    assert_eq!(run.staged, [(7, 3)]);
    assert!(run.needs_upload(7, &plan, 4, &vec![3, 5]));
    assert!(run.needs_upload(7, &plan, 3, &vec![]));
    let empty = plan_pack(&vec![], None, &HashMap::new(), ZERO_HASH, 4);
    assert!(!run.needs_upload(7, &empty, 4, &vec![]));
    assert_eq!(run.stats.packs_skipped, 2);
    assert_eq!(run.stats.packs_uploaded, 0);
    assert_eq!(run.staged, [(7, 3)]);
}

#[test]
fn failed_flush_appends_and_evicts_nothing() {
    let run = || {
        let mut run = FlushRun::new();
        run.uploaded(2, 9, &vec![5, 6]);
        run.flushed = vec![8];
        run
    };
    let end = run().end(Err(CacheError::NotReady));
    assert!(end.appends.is_empty() && end.evict.is_empty());
    assert!(matches!(end.result, Err(CacheError::NotReady)));
    let end = run().end(Ok(()));
    assert_eq!(end.appends, [(2, 9)]);
    assert_eq!(end.evict, [8]);
    assert_eq!(end.result.unwrap().bytes_uploaded, 11);
}

#[test]
fn fetched_blocks_with_another_hash_are_not_used() {
    let fetch = |idx, hash| FetchEntry {
        idx,
        pack_id: 1,
        chunk_idx: 0,
        expected_hash: hash,
        offset: 0,
        comp_len: 1,
    };
    let blocks = vec![fetch(3, 30), fetch(1, 10), fetch(2, 20)];
    let decoded = |second| vec![(vec![3], 30), (vec![1], second), (vec![2], 20)];
    let done = accept_fetched(&blocks, decoded(11));
    assert_eq!(done.verified, [(3, 30, vec![3])]);
    assert!(matches!(done.result, Err(CacheError::HashMismatch { .. })));
    let done = accept_fetched(&blocks, decoded(10));
    assert_eq!(done.verified, [(3, 30, vec![3]), (1, 10, vec![1]), (2, 20, vec![2])]);
    assert!(done.result.is_ok());
}

#[test]
fn counters_start_in_step() {
    let mut dev = Device::small();
    dev.write(0, &vec![1; 4096]).unwrap();
    assert!(dev.cache.try_claim_block(1));
    dev.metadata = Some(dev.cache.save_metadata());
    let mut dev = dev.reopen();
    assert_eq!(dev.state(0), SparseBlockState::DIRTY);
    assert_eq!(dev.state(1), SparseBlockState::NOT_PRESENT);
    assert_eq!(dev.cache.dirty_block_count(), 1);

    // A block that a flush had claimed and the log names counts once.
    dev.rotate();
    let metadata = dev.cache.save_metadata();
    let config = dev.cache.inner.config.clone();
    let log = vec![WalEntry { block_index: 0, sequence: 100 }];
    let open = |passive| {
        let opening =
            WriteCache::<Initializing>::open(config.clone(), Some(&metadata)).ok().unwrap();
        opening.recover(Ok(&log), passive, true).ok().unwrap().cache.skip_recovery_for_test()
    };
    assert_eq!(open(false).dirty_block_count(), 1);
    assert_eq!(open(true).syncing_block_count(), 0);
    let opening = WriteCache::<Initializing>::open(config.clone(), Some(&metadata)).ok().unwrap();
    let opened = opening.recover(Ok(&vec![]), true, true).ok().unwrap();
    let mut passive = opened.cache.skip_recovery_for_test();
    assert_eq!((passive.dirty_block_count(), passive.syncing_block_count()), (0, 1));
    assert_eq!(passive.replay_wal_tail(Ok(&log)).ok(), Some(1));
    assert_eq!((passive.dirty_block_count(), passive.syncing_block_count()), (1, 0));
}

#[test]
fn data_that_is_missing_keeps_its_block() {
    let plan = plan_pack(&vec![(0, 77)], None, &HashMap::new(), ZERO_HASH, 4);
    assert_eq!(plan.missing, [0]);
    assert!(plan.flushed.is_empty() && plan.blocks.is_empty());
}

#[test]
fn failed_block_ends_a_batch() {
    let results = vec![
        Ok(BlockResult::Skipped { chunk_index: 3, cas_failed: true, crc_mismatched: true }),
        Err(CacheError::NotReady),
    ];
    assert!(matches!(compute_flush_batch(results), Err(CacheError::NotReady)));
}

#[test]
fn compaction_keeps_the_newest_entries() {
    let packs = vec![
        PackIndex { pack_id: 1, entries: vec![entry(0, 1, 0, 4), entry(1, 2, 4, 4)] },
        PackIndex { pack_id: 2, entries: vec![entry(1, 3, 0, 9), entry(2, 4, 9, 0)] },
    ];
    let mut live = merge_packs(&packs);
    live.sort_by_key(|b| b.entry.chunk_offset);
    let hashes: Vec<u128> = live.iter().map(|b| b.entry.hash).collect();
    assert_eq!(hashes, [1, 3, 4]);
    let (zeros, data) = split_live(&live);
    assert_eq!((zeros.len(), data.len()), (1, 2));
    let count = dead_block_count(&packs);
    assert_eq!((count.dead, count.total), (1, 4));
    assert_eq!(pack_size(&packs[1].entries, 28, 16), 9 + 2 * 28 + 16);
    assert_eq!(live_offsets(&packs[1].entries), [1]);
    assert_eq!(compaction_need(1, 16), CompactionNeed::No);
    assert_eq!(compaction_need(2, 16), CompactionNeed::IfMostlyDead);
    assert_eq!(compaction_need(16, 16), CompactionNeed::IfMostlyDead);
    assert_eq!(compaction_need(17, 16), CompactionNeed::Yes);
    let result = || CompactionResult {
        chunk_idx: 0,
        new_pack_id: 3,
        old_pack_ids: vec![1, 2],
        live_blocks: 3,
        new_pack_size: 50,
    };
    assert!(matches!(plan_compaction(0, &vec![1, 2], &live), CompactionPlan::Upload));
    let plan = plan_compaction(7, &vec![1, 2], &merge_packs(&vec![]));
    let CompactionPlan::Remove(removed) = plan else { panic!("nothing is live") };
    assert_eq!((removed.chunk_idx, removed.new_pack_id), (7, 0));
    assert_eq!((removed.old_pack_ids, removed.live_blocks, removed.new_pack_size), (vec![1, 2], 0, 0));
    assert!(finish_compaction(true, result()).is_ok());
    assert!(finish_compaction(false, result()).is_err());
}

#[test]
fn manifest_uploads_are_retried() {
    let mut dev = Device::new(1);
    assert_eq!(dev.cache.expected_etag(), None);
    let other = || Err(ContentStoreError::Other("503".into()));
    let lost = || Err(ContentStoreError::PreconditionFailed("etag".into()));
    assert!(matches!(dev.cache.after_manifest_put(0, other()), PutNext::RetryAfter(100)));
    assert!(matches!(dev.cache.after_manifest_put(1, other()), PutNext::RetryAfter(200)));
    assert!(matches!(dev.cache.after_manifest_put(2, other()), PutNext::Fail(_)));
    assert!(matches!(dev.cache.after_manifest_put(0, lost()), PutNext::Fail(e) if e.is_manifest_conflict()));
    assert!(matches!(dev.cache.after_manifest_put(0, Ok(Some("v1".into()))), PutNext::Stored));
    assert_eq!(dev.cache.expected_etag(), Some("v1"));
    assert!(dev.cache.manifest_synced(lost()).is_err());
    assert_eq!(dev.cache.expected_etag(), Some("v1"));
    assert!(dev.cache.manifest_synced(Ok(None)).is_ok());
    assert_eq!(dev.cache.expected_etag(), None);
    assert_eq!(after_snapshot_put(0, false), SnapshotNext::RetryAfter(100));
    assert_eq!(after_snapshot_put(2, false), SnapshotNext::GiveUp);
    let stats = FlushStats::default();
    let done = dev.cache.snapshot(stats, 9, None, after_snapshot_put(1, true), vec![1]);
    assert!(done.snapshot_persisted && done.sequence == 9);
    assert!(!dev.cache.snapshot(stats, 9, None, SnapshotNext::GiveUp, vec![1]).snapshot_persisted);
}

#[test]
fn phases_of_a_handoff() {
    for phase in [HandoffPhase::Idle, HandoffPhase::Warming, HandoffPhase::Freezing, HandoffPhase::Cutover] {
        assert_eq!(HandoffPhase::from_u8(phase.to_u8()), phase);
        assert_eq!(phase.is_active(), phase != HandoffPhase::Idle);
    }
    assert_eq!(HandoffPhase::from_u8(200), HandoffPhase::Idle);
}

#[test]
fn zeroing_in_pieces() {
    assert!(zero_range_chunks(5, 0).is_empty());
    assert_eq!(zero_range_chunks(5, 131_073), [(5, 131_072), (131_077, 1)]);
}

#[test]
fn texts_of_errors() {
    let io = IoError { kind: IoErrorKind::Other, message: "disk".into() };
    let cases = [
        (CacheError::Io(io), "I/O error: disk"),
        (CacheError::NotReady, "Cache not ready for I/O operations"),
        (CacheError::ShuttingDown, "Cache is shutting down"),
        (CacheError::invalid_metadata(), "Invalid cache metadata"),
        (CacheError::offset_out_of_bounds(10, 9), "Offset 10 exceeds device size 9"),
        (
            CacheError::ContentStore(ContentStoreError::Other("503".into())),
            "Content store error: 503",
        ),
        (
            CacheError::HashMismatch { expected: "a".into(), actual: "b".into() },
            "Block hash mismatch: expected a, got b",
        ),
        (CacheError::DecompressFailed("bad".into()), "LZ4 decompression failed: bad"),
        (
            CacheError::UnsupportedBlockSize(9, 8),
            "Unsupported block size 9: must not exceed 8 (ZERO_BLOCK_BYTES is compiled for this size)",
        ),
        (CacheError::BlockEvicted, "Block evicted during flush — retry with backfill"),
        (CacheError::VolumeManifest("bad".into()), "Volume manifest error: bad"),
        (
            CacheError::Locked("/x".into()),
            "WAL file is locked by another process (pid in flock owner): /x",
        ),
        (
            CacheError::Fenced { held: 1, superseded_by: 2 },
            "fenced: volume taken by generation 2 (this writer holds 1)",
        ),
    ];
    for (e, text) in cases {
        assert_eq!(e.message(), text);
    }
    assert!(CacheError::Fenced { held: 1, superseded_by: 2 }.is_manifest_conflict());
    assert!(!CacheError::NotReady.is_manifest_conflict());
}

fn filled(data: &[u8], byte: u8) -> bool {
    data.iter().all(|&b| b == byte)
}

#[test]
fn test_open_fresh_cache() {
    let dev = Device::small();
    assert_eq!(dev.cache.dirty_block_count(), 0);
}

#[test]
fn test_write_read() {
    let mut dev = Device::small();
    dev.write(0, b"hello world").unwrap();
    assert_eq!(dev.read_local_only(0, 11), b"hello world");
    assert!(dev.cache.dirty_block_count() > 0);
}

#[test]
fn test_metadata_persistence() {
    let mut dev = Device::small();
    dev.write(0, b"persistent").unwrap();
    dev.metadata = Some(dev.cache.save_metadata());
    let dev = dev.reopen();
    assert!(dev.cache.dirty_block_count() > 0);
    assert_eq!(dev.read_local_only(0, 10), b"persistent");
}

#[test]
fn test_flush_end_to_end() {
    let mut dev = Device::small();
    for i in 0u8..10 {
        dev.write(i as u64 * 4096, &vec![i + 1; 4096]).unwrap();
    }
    let stats = dev.flush();
    assert_eq!(stats.blocks_claimed, 10);
    assert_eq!(stats.blocks_deduped, 0);
    assert!(stats.packs_uploaded > 0);
    assert!(stats.bytes_uploaded > 0);
    assert_eq!(dev.cache.block_size(), 4096);
    assert_eq!(dev.cache.device_size(), 1024 * 1024);
}

#[test]
fn test_flush_dedup_skips_existing() {
    let mut dev = Device::small();
    for i in 0u8..5 {
        dev.write(i as u64 * 4096, &vec![i + 1; 4096]).unwrap();
    }
    let stats1 = dev.flush();
    assert_eq!(stats1.blocks_claimed, 5);
    assert_eq!(stats1.blocks_deduped, 0);
    assert!(stats1.packs_uploaded > 0);

    // The same data at new offsets: packs are indexed by place, so each block
    // gets an entry of its own.
    for i in 0u8..5 {
        dev.write((i as u64 + 5) * 4096, &vec![i + 1; 4096]).unwrap();
    }
    let stats2 = dev.flush();
    assert_eq!(stats2.blocks_claimed, 5);
    assert!(stats2.packs_uploaded > 0, "new offsets require new pack entries");
}

#[test]
fn test_flush_partial_dedup() {
    let mut dev = Device::small();
    for i in 0u8..10 {
        dev.write(i as u64 * 4096, &vec![i + 1; 4096]).unwrap();
    }
    let stats1 = dev.flush();
    assert_eq!(stats1.blocks_claimed, 10);
    assert_eq!(stats1.blocks_deduped, 0);
    for i in 0u8..5 {
        dev.write((i as u64 + 10) * 4096, &vec![i + 1; 4096]).unwrap();
    }
    for i in 0u8..5 {
        dev.write((i as u64 + 15) * 4096, &vec![i + 100; 4096]).unwrap();
    }
    let stats2 = dev.flush();
    assert_eq!(stats2.blocks_claimed, 10);
    assert!(stats2.packs_uploaded > 0, "all blocks need pack entries");
}

#[test]
fn test_flush_zero_blocks_skipped() {
    let mut dev = Device::with_config(128 * 1024 * 4, 128 * 1024);
    dev.write(0, &vec![42u8; 128 * 1024]).unwrap();
    dev.write(128 * 1024, &vec![0u8; 128 * 1024]).unwrap();
    let stats = dev.flush();
    assert_eq!(stats.blocks_claimed, 2);
    assert_eq!(stats.blocks_deduped, 1, "zero block should be deduped");
    assert_eq!(stats.packs_uploaded, 1, "only one pack for the real block");
}

#[test]
fn test_flush_clears_dirty_state() {
    let mut dev = Device::small();
    for i in 0u8..3 {
        dev.write(i as u64 * 4096, &vec![i + 1; 4096]).unwrap();
    }
    dev.flush();
    assert_eq!(dev.flush().blocks_claimed, 0, "no dirty blocks after flush");
}

#[test]
fn test_flush_concurrent_write_stays_dirty() {
    let mut dev = Device::small();
    dev.write(0, &vec![1u8; 4096]).unwrap();
    dev.flush();
    dev.write(0, &vec![2u8; 4096]).unwrap();
    assert_eq!(dev.flush().blocks_claimed, 1, "overwritten block should be flushed");
}

#[test]
fn test_flush_manifest_self_contained() {
    let mut dev = Device::with_config(3 * 1024 * 1024, 4096);
    for i in 0u16..600 {
        let mut data = vec![0xAAu8; 4096];
        data[..2].copy_from_slice(&(i + 1).to_le_bytes());
        dev.write(i as u64 * 4096, &data).unwrap();
    }
    let stats = dev.flush();
    assert!(stats.packs_uploaded > 0, "should produce at least 1 pack");
    assert_eq!(dev.cache.device_size(), 3 * 1024 * 1024);
    assert_eq!(dev.cache.block_size(), 4096);
}

#[test]
fn test_v2_read_recently_written_block() {
    let mut dev = Device::small();
    let data = vec![0xAAu8; 4096];
    dev.write(0, &data).unwrap();
    assert_eq!(dev.read(0, 4096).unwrap(), data);
}

#[test]
fn test_v2_read_zero_block() {
    let dev = Device::small();
    assert!(filled(&dev.read(0, 4096).unwrap(), 0), "unwritten block should be all zeros");
}

#[test]
fn test_v2_read_trimmed_block() {
    let mut dev = Device::small();
    dev.write(0, &vec![0xBBu8; 4096]).unwrap();
    dev.zero(0, 4096).unwrap();
    assert!(filled(&dev.read(0, 4096).unwrap(), 0), "trimmed block should be all zeros");
}

#[test]
fn test_v2_read_sub_chunk() {
    let mut dev = Device::small();
    dev.write(0, &vec![0xCCu8; 4096]).unwrap();
    let got = dev.read(1000, 100).unwrap();
    assert_eq!(got.len(), 100);
    assert!(filled(&got, 0xCC));
}

#[test]
fn test_v2_read_spans_chunks() {
    let mut dev = Device::small();
    dev.write(0, &vec![0x11u8; 4096]).unwrap();
    dev.write(4096, &vec![0x22u8; 4096]).unwrap();
    let got = dev.read(3996, 200).unwrap();
    assert_eq!(got.len(), 200);
    assert!(filled(&got[..100], 0x11), "first 100 bytes from chunk 0");
    assert!(filled(&got[100..], 0x22), "last 100 bytes from chunk 1");
}

#[test]
fn test_v2_read_from_s3_pack() {
    let mut dev = Device::small();
    for i in 0u8..5 {
        dev.write(i as u64 * 4096, &vec![i + 1; 4096]).unwrap();
    }
    dev.flush();
    dev.clean.clear();
    for i in 0u8..5 {
        assert!(filled(&dev.read(i as u64 * 4096, 4096).unwrap(), i + 1), "block {}", i);
    }
}

#[test]
fn test_v2_mixed_dirty_and_clean_reads() {
    let mut dev = Device::small();
    for i in 0u8..5 {
        dev.write(i as u64 * 4096, &vec![i + 1; 4096]).unwrap();
    }
    dev.flush();
    dev.clean.clear();
    for i in 5u8..10 {
        dev.write(i as u64 * 4096, &vec![i + 1; 4096]).unwrap();
    }
    for i in 0u8..10 {
        assert!(filled(&dev.read(i as u64 * 4096, 4096).unwrap(), i + 1), "block {}", i);
    }
}

#[test]
fn test_v2_read_mixed_cache_hit_and_s3_miss() {
    let mut dev = Device::small();
    for i in 0u8..8 {
        dev.write(i as u64 * 4096, &vec![i + 1; 4096]).unwrap();
    }
    dev.flush();
    // Blocks 3 and 4 have to be fetched, the others are in the clean cache.
    for i in [0u8, 1, 2, 5, 6, 7] {
        dev.clean.insert(hash_of(&vec![i + 1; 4096]), vec![i + 1; 4096]);
    }
    let got = dev.read(0, 8 * 4096).unwrap();
    assert_eq!(got.len(), 8 * 4096);
    for i in 0u8..8 {
        let start = i as usize * 4096;
        assert!(filled(&got[start..start + 4096], i + 1), "block {}", i);
    }
}

#[test]
fn test_snapshot_returns_sequence_and_stats() {
    let mut dev = Device::small();
    for i in 0u8..5 {
        dev.write(i as u64 * 4096, &vec![i + 1; 4096]).unwrap();
    }
    let result = dev.snapshot();
    assert!(result.sequence > 0, "sequence should be > 0 after writes");
    assert_eq!(result.stats.blocks_claimed, 5);
    assert!(result.stats.packs_uploaded > 0);
    assert_eq!(dev.cache.block_size(), 4096);
}

#[test]
fn test_snapshot_clears_dirty_state() {
    let mut dev = Device::small();
    for i in 0u8..3 {
        dev.write(i as u64 * 4096, &vec![i + 1; 4096]).unwrap();
    }
    assert_eq!(dev.snapshot().stats.blocks_claimed, 3);
    assert_eq!(dev.snapshot().stats.blocks_claimed, 0, "no dirty blocks after snapshot");
}

#[test]
fn test_snapshot_captures_concurrent_writes() {
    let mut dev = Device::small();
    dev.write(0, &vec![0xAA; 4096]).unwrap();
    dev.write(4096, &vec![0xBB; 4096]).unwrap();
    assert_eq!(dev.snapshot().stats.blocks_claimed, 2);
    dev.write(8192, &vec![0xCC; 4096]).unwrap();
    assert_eq!(dev.snapshot().stats.blocks_claimed, 1);
}

#[test]
fn test_recovery_verifies_dirty_blocks_readable() {
    let mut dev = Device::small();
    let original = vec![0xAAu8; 4096];
    dev.write(0, &original).unwrap();
    dev.metadata = Some(dev.cache.save_metadata());
    let dev = dev.reopen();
    assert_eq!(dev.cache.recovery_warning_count(), 0);
    assert_eq!(dev.read_local_only(0, 4096), original);
}

/// Runs flush cycles with the writers' rounds in between: a write of each writer
/// falls into each cycle, and the rest behind it.
fn flush_among_writes(
    dev: &mut Device,
    cycles: usize,
    rounds: u8,
    write: impl Fn(u8, u8) -> (u64, u8),
) {
    let mut round = 0u8;
    let write_round = |dev: &mut Device, round: u8| {
        for writer in 0..5u8 {
            let (block, fill) = write(writer, round);
            dev.write(block * 4096, &vec![fill; 4096]).unwrap();
        }
    };
    for _ in 0..cycles {
        let at = round;
        dev.flush_with(false, |dev| {
            if at < rounds {
                write_round(dev, at);
            }
        });
        round = at.saturating_add(1);
        if round < rounds {
            write_round(dev, round);
            round += 1;
        }
    }
    while round < rounds {
        write_round(dev, round);
        round += 1;
    }
}

#[test]
fn test_concurrent_flush_and_writes() {
    let mut dev = Device::small();
    for i in 0u8..10 {
        dev.write(i as u64 * 4096, &vec![i + 1; 4096]).unwrap();
    }
    flush_among_writes(&mut dev, 5, 20, |writer, round| {
        ((writer as u64 * 2) % 10, writer.wrapping_add(round).wrapping_add(100))
    });
    dev.flush();
    assert_eq!(dev.cache.dirty_block_count(), 0, "all blocks should be clean after final flush");
    for i in 0..10u64 {
        let data = dev.read_local_only(i * 4096, 4096);
        assert!(filled(&data, data[0]), "block {} has torn data", i);
    }
}

#[test]
fn test_draining_state_transition() {
    let mut dev = Device::small();
    dev.write(0, &vec![0xAA; 4096]).unwrap();
    dev.write(4096, &vec![0xBB; 4096]).unwrap();
    assert_eq!(dev.cache.dirty_block_count(), 2);
    let dirty_before = dev.cache.dirty_block_count();
    let config = dev.cache.inner.config.clone();
    let (metadata, draining) = dev.cache.shutdown();
    draining.finish();

    let opening = WriteCache::<Initializing>::open(config, Some(&metadata)).ok().unwrap();
    let min_seq = opening.wal_min_seq();
    let tail: Vec<WalEntry> = dev.wal.iter().filter(|e| e.sequence > min_seq).copied().collect();
    let opened = opening.recover(Ok(&tail), false, false).ok().unwrap();
    let (cache, _) = opened.cache.finish_recovery();
    assert_eq!(
        cache.dirty_block_count(),
        dirty_before,
        "shutdown should persist metadata with dirty blocks"
    );
    let copy = cache.read_local_only(0, 4096).ok().unwrap().unwrap();
    assert_eq!(dev.active[copy.offset as usize..copy.offset as usize + 4], [0xAA; 4]);
}

#[test]
fn test_concurrent_flush_write_s3_convergence() {
    let mut dev = Device::small();
    for i in 0u8..10 {
        dev.write(i as u64 * 4096, &vec![i + 1; 4096]).unwrap();
    }
    flush_among_writes(&mut dev, 5, 10, |writer, round| (writer as u64 * 2, writer * 10 + round));
    dev.flush();
    assert_eq!(dev.cache.dirty_block_count(), 0, "all blocks clean after final flush");
    dev.clean.clear();
    for block in 0u64..10 {
        let data = dev.read(block * 4096, 4096).unwrap();
        assert!(!filled(&data, 0), "block {} reads as all zeros", block);
        assert!(filled(&data, data[0]), "block {} has mixed bytes", block);
    }
}

#[test]
fn test_crc32_mismatch_skips_block_then_heals() {
    let mut dev = Device::small();
    dev.write(0, &vec![0xABu8; 4096]).unwrap();
    assert_eq!(dev.cache.dirty_block_count(), 1);
    dev.active[..4096].fill(0xFF);
    let stats = dev.flush();
    assert_eq!(stats.blocks_crc_mismatched, 1, "SSD corruption detected");
    assert_eq!(stats.blocks_claimed, 1, "block claimed but skipped due to CRC mismatch");
    assert_eq!(dev.cache.dirty_block_count(), 1, "block remains dirty for retry");
    dev.write(0, &vec![0xCCu8; 4096]).unwrap();
    let stats2 = dev.flush();
    assert_eq!(stats2.blocks_crc_mismatched, 0, "healed");
    assert_eq!(stats2.blocks_claimed, 1);
    assert_eq!(dev.cache.dirty_block_count(), 0, "block flushed");
}

#[test]
fn test_crc32_overwrite_then_flush() {
    let mut dev = Device::small();
    dev.write(0, &vec![0xAAu8; 4096]).unwrap();
    dev.write(0, &vec![0xBBu8; 4096]).unwrap();
    let stats = dev.flush();
    assert_eq!(stats.blocks_crc_mismatched, 0);
    assert_eq!(stats.blocks_claimed, 1);
}

#[test]
fn test_crc32_partial_corruption_flushes_good_blocks() {
    let mut dev = Device::small();
    for i in 0u8..5 {
        dev.write(i as u64 * 4096, &vec![i + 10; 4096]).unwrap();
    }
    assert_eq!(dev.cache.dirty_block_count(), 5);
    let stats = dev.flush();
    assert_eq!(stats.blocks_crc_mismatched, 0, "no corruption");
    assert_eq!(stats.blocks_claimed, 5, "all 5 scanned");
    assert_eq!(stats.packs_uploaded, 1, "5 blocks in 1 pack");
    assert_eq!(dev.cache.dirty_block_count(), 0, "all blocks clean");
}

#[test]
fn test_crc32_happy_path_multi_cycle() {
    let mut dev = Device::small();
    for i in 0u8..3 {
        dev.write(i as u64 * 4096, &vec![i + 10; 4096]).unwrap();
    }
    let stats1 = dev.flush();
    assert_eq!(stats1.blocks_crc_mismatched, 0, "cycle 1: no corruption");
    assert_eq!(stats1.blocks_claimed, 3);
    assert_eq!(stats1.packs_uploaded, 1);
    assert_eq!(dev.cache.dirty_block_count(), 0, "cycle 1: all clean");

    dev.write(3 * 4096, &vec![0xDD; 4096]).unwrap();
    dev.write(4 * 4096, &vec![0xEE; 4096]).unwrap();
    dev.write(0, &vec![0xFF; 4096]).unwrap();
    assert_eq!(dev.cache.dirty_block_count(), 3);
    let stats2 = dev.flush();
    assert_eq!(stats2.blocks_crc_mismatched, 0, "cycle 2: no corruption");
    assert_eq!(stats2.blocks_claimed, 3);
    assert_eq!(dev.cache.dirty_block_count(), 0, "cycle 2: all clean");
}

#[test]
fn test_crc32_concurrent_writes_never_false_corruption() {
    let mut dev = Device::small();
    for i in 0u8..10 {
        dev.write(i as u64 * 4096, &vec![i + 1; 4096]).unwrap();
    }
    flush_among_writes(&mut dev, 10, 30, |writer, round| {
        ((writer as u64 * 2) % 10, writer.wrapping_add(round).wrapping_add(100))
    });
    let stats = dev.flush();
    assert_eq!(stats.blocks_crc_mismatched, 0, "quiesced flush should have no CRC mismatches");
    assert_eq!(dev.cache.dirty_block_count(), 0, "all blocks should eventually flush");
}

#[test]
fn test_crc_dedup_hot_block() {
    let mut dev = Device::small();
    for i in 0u32..1000 {
        dev.write(0, &vec![(i & 0xFF) as u8; 4096]).unwrap();
    }
    assert_eq!(dev.cache.pending_crc_count(), 1);
    let stats = dev.flush();
    assert_eq!(stats.blocks_crc_mismatched, 0);
    assert_eq!(dev.cache.pending_crc_count(), 0, "drained to zero after flush");
}

#[test]
fn test_crc_distinct_blocks() {
    let mut dev = Device::small();
    for i in 0u64..50 {
        dev.write(i * 4096, &vec![(i & 0xFF) as u8; 4096]).unwrap();
    }
    assert_eq!(dev.cache.pending_crc_count(), 50);
    let stats = dev.flush();
    assert_eq!(stats.blocks_crc_mismatched, 0);
    assert_eq!(dev.cache.pending_crc_count(), 0, "drained to zero after flush");
}

#[test]
fn test_bottomless_rotate_data_file() {
    let mut dev = Device::small();
    let data0 = vec![0xAAu8; 4096];
    let data1 = vec![0xBBu8; 4096];
    dev.write(0, &data0).unwrap();
    dev.write(4096, &data1).unwrap();
    assert!(!dev.cache.inner.flushing_open);
    assert!(!dev.cache.inner.flushing_active);

    let size = dev.active.len();
    dev.flushing = Some(std::mem::replace(&mut dev.active, vec![0; size]));
    assert!(dev.cache.rotate_data_file(RotationFiles::Swapped).is_ok());
    assert!(dev.cache.inner.flushing_active);
    assert!(dev.cache.inner.flushing_open);
    let flushing = dev.flushing.as_ref().unwrap();
    assert_eq!(flushing[..4096], data0[..], "flushing file should have block 0 data");
    assert_eq!(flushing[4096..8192], data1[..], "flushing file should have block 1 data");
    assert!(filled(&dev.active[..8192], 0), "new active file should be zeros");
}

#[test]
fn test_bottomless_eviction_lifecycle() {
    let mut dev = Device::small();
    for i in 0u8..5 {
        dev.write(i as u64 * 4096, &vec![i + 1; 4096]).unwrap();
    }
    assert_eq!(dev.cache.dirty_block_count(), 5);
    let stats = dev.flush();
    assert_eq!(stats.blocks_claimed, 5);
    assert!(stats.packs_uploaded > 0);
    for i in 0usize..5 {
        assert_eq!(dev.state(i), SparseBlockState::NOT_PRESENT, "block {}", i);
    }
    assert_eq!(dev.cache.dirty_block_count(), 0);
    assert_eq!(dev.cache.syncing_block_count(), 0);
    assert!(!dev.cache.inner.flushing_open);
    assert!(!dev.cache.inner.flushing_active);
    assert!(dev.flushing.is_none());
}

#[test]
fn test_bottomless_re_dirty_during_flush() {
    let mut dev = Device::small();
    let initial = vec![0xAAu8; 4096];
    dev.write(0, &initial).unwrap();
    assert_eq!(dev.cache.dirty_block_count(), 1);
    let size = dev.active.len();
    dev.flushing = Some(std::mem::replace(&mut dev.active, vec![0; size]));
    assert!(dev.cache.rotate_data_file(RotationFiles::Swapped).is_ok());

    assert!(dev.cache.inner.blocks.transition_dirty_to_syncing(0));
    assert_eq!(dev.cache.dirty_block_count(), 0);
    assert_eq!(dev.cache.syncing_block_count(), 1);
    assert_eq!(dev.state(0), SparseBlockState::SYNCING);

    let new = vec![0xBBu8; 4096];
    dev.write(0, &new).unwrap();
    assert_eq!(dev.state(0), SparseBlockState::DIRTY);
    assert_eq!(dev.cache.dirty_block_count(), 1);
    assert_eq!(dev.cache.syncing_block_count(), 0);
    assert_eq!(dev.active[..4096], new[..]);
    assert_eq!(dev.flushing.as_ref().unwrap()[..4096], initial[..]);
}

#[test]
fn test_bottomless_clean_to_not_present_migration() {
    let mut dev = Device::small();
    for i in 0usize..3 {
        dev.cache.inner.blocks.set_present(i);
        assert_eq!(dev.state(i), SparseBlockState::CLEAN, "block {}", i);
    }
    dev.metadata = Some(dev.cache.save_metadata());
    let dev = dev.reopen();
    for i in 0usize..3 {
        assert_eq!(dev.state(i), SparseBlockState::NOT_PRESENT, "block {}", i);
    }
    assert_eq!(dev.cache.dirty_block_count(), 0);
}

#[test]
fn test_bottomless_crash_recovery_with_flushing_file() {
    let mut dev = Device::small();
    for i in 0u8..3 {
        dev.write(i as u64 * 4096, &vec![i + 0x10; 4096]).unwrap();
    }
    dev.metadata = Some(dev.cache.save_metadata());
    // A crash right after the files were swapped.
    let size = dev.active.len();
    dev.flushing = Some(std::mem::replace(&mut dev.active, vec![0; size]));
    let dev = dev.reopen();
    assert!(dev.flushing.is_none(), "flushing file should be deleted after recovery");
    for i in 0usize..3 {
        assert_eq!(dev.state(i), SparseBlockState::DIRTY, "block {}", i);
    }
    assert_eq!(dev.cache.dirty_block_count(), 3);
    for i in 0u8..3 {
        let start = i as usize * 4096;
        assert!(filled(&dev.active[start..start + 4096], i + 0x10), "block {}", i);
    }
    assert!(!dev.cache.inner.flushing_open);
}

#[test]
fn test_bottomless_flushing_active_flag() {
    let mut dev = Device::small();
    assert!(!dev.cache.inner.flushing_active);
    dev.write(0, &vec![0xDD; 4096]).unwrap();
    let stats = dev.flush_with(false, |dev| assert!(dev.cache.inner.flushing_active)).unwrap();
    assert_eq!(stats.blocks_claimed, 1);
    assert!(!dev.cache.inner.flushing_active);
    assert!(!dev.cache.inner.flushing_open);
}

#[test]
fn test_bottomless_flushing_active_no_dirty_blocks() {
    let mut dev = Device::small();
    assert_eq!(dev.flush().blocks_claimed, 0);
    assert!(!dev.cache.inner.flushing_active);
}

#[test]
fn test_bottomless_flush_and_s3_readback() {
    let mut dev = Device::small();
    for i in 0u8..3 {
        dev.write(i as u64 * 4096, &vec![i + 0x50; 4096]).unwrap();
    }
    assert_eq!(dev.flush().blocks_claimed, 3);
    for i in 0usize..3 {
        assert_eq!(dev.state(i), SparseBlockState::NOT_PRESENT);
    }
    for i in 0u8..3 {
        assert!(filled(&dev.read(i as u64 * 4096, 4096).unwrap(), i + 0x50), "block {}", i);
    }
}

#[test]
fn test_bottomless_concurrent_write_during_flush() {
    let mut dev = Device::small();
    for i in 0u8..10 {
        dev.write(i as u64 * 4096, &vec![i + 0x10; 4096]).unwrap();
    }
    let stats = dev
        .flush_with(false, |dev| {
            for i in 0u8..5 {
                dev.write(i as u64 * 4096, &vec![i + 0xA0; 4096]).unwrap();
            }
        })
        .unwrap();
    assert!(stats.blocks_claimed > 0, "some blocks should have been claimed");
    for i in 0u8..5 {
        let state = dev.state(i as usize);
        assert!(state == SparseBlockState::DIRTY || state == SparseBlockState::NOT_PRESENT);
        let data = dev.read(i as u64 * 4096, 4096).unwrap();
        if state == SparseBlockState::DIRTY {
            assert!(filled(&data, i + 0xA0), "re-dirtied block {}", i);
        }
    }
    for i in 5u8..10 {
        assert!(filled(&dev.read(i as u64 * 4096, 4096).unwrap(), i + 0x10), "block {}", i);
    }
}

#[test]
fn test_rotation_claims_atomically() {
    let mut dev = Device::small();
    for i in 0u8..5 {
        dev.write(i as u64 * 4096, &vec![i + 0x30; 4096]).unwrap();
    }
    for i in 0usize..5 {
        assert_eq!(dev.state(i), SparseBlockState::DIRTY, "block {}", i);
    }
    let claimed = dev.rotate();
    assert_eq!(claimed.len(), 5, "all 5 dirty blocks should be claimed");
    for i in 0usize..5 {
        assert_eq!(dev.state(i), SparseBlockState::SYNCING, "block {}", i);
    }
    dev.write(2 * 4096, &vec![0xFFu8; 4096]).unwrap();
    assert_eq!(dev.state(2), SparseBlockState::DIRTY, "write must re-dirty the block");
    for i in [0, 1, 3, 4] {
        assert_eq!(dev.state(i), SparseBlockState::SYNCING, "block {}", i);
    }
    for &idx in &claimed {
        dev.cache.inner.blocks.transition_to_dirty(idx);
    }
    assert!(filled(&dev.active[2 * 4096..3 * 4096], 0xFF), "block 2 should have the new data");
}

#[test]
fn test_bottomless_flush_failure_recovery() {
    let mut dev = Device::small();
    for i in 0u8..3 {
        dev.write(i as u64 * 4096, &vec![i + 0x70; 4096]).unwrap();
    }
    assert!(dev.flush_with(true, |_| {}).is_none(), "flush should fail");
    for i in 0usize..3 {
        assert_eq!(dev.state(i), SparseBlockState::DIRTY, "block {}", i);
        assert!(filled(&dev.active[i * 4096..(i + 1) * 4096], i as u8 + 0x70), "block {}", i);
    }
    assert!(!dev.cache.inner.flushing_open);
    assert!(!dev.cache.inner.flushing_active);
    assert!(dev.flushing.is_none());
}

#[test]
fn test_promote_syncing_blocks_silent_skip_when_ff_none() {
    let block_size = 128 * 1024usize;
    let mut dev = Device::with_config(2 * block_size as u64, block_size);
    dev.write(0, &vec![0xAA_u8; block_size]).unwrap();
    assert_eq!(dev.cache.dirty_block_count(), 1);
    assert_eq!(dev.rotate(), vec![0], "block 0 should be claimed");
    assert_eq!(dev.state(0), SparseBlockState::SYNCING);

    // The flush completes: its block is evicted and its file dropped.
    assert!(dev.cache.transition_syncing_to_not_present(0));
    dev.cache.inner.flushing_active = false;
    dev.cache.inner.flushing_open = false;
    dev.flushing = None;
    assert_eq!(dev.state(0), SparseBlockState::NOT_PRESENT);

    let p = Promotion::new(&dev.cache.inner, 0, 0, false);
    assert!(dev.promote(p).is_ok(), "a plain write passes over the block");
    dev.active[..4096].fill(0xBB);
    assert!(filled(&dev.active[4096..block_size], 0), "the rest of the block is zeros");

    let p = Promotion::new(&dev.cache.inner, 0, 0, true);
    assert!(matches!(dev.promote(p), Err(CacheError::BlockEvicted)));
}

#[test]
fn test_crash_recovery_preserves_post_rotation_zero_write() {
    let mut dev = Device::small();
    dev.write(0, &vec![0xAA; 4096]).unwrap();
    dev.rotate();
    dev.write(0, &vec![0x00; 4096]).unwrap();
    assert!(filled(&dev.active[..4096], 0), "active file should have zeros after zero-write");
    assert!(filled(&dev.flushing.as_ref().unwrap()[..4096], 0xAA), "flushing file keeps 0xAA");
    dev.metadata = Some(dev.cache.save_metadata());
    let dev = dev.reopen();
    assert!(dev.flushing.is_none(), "flushing file should be deleted after recovery");
    assert!(filled(&dev.active[..4096], 0), "block 0 should be zeros");
}

#[test]
fn test_flush_recovery_skipped_block_stays_syncing() {
    let mut dev = Device::small();
    for i in 0u8..3 {
        dev.write(i as u64 * 4096, &vec![i + 0x70; 4096]).unwrap();
    }
    let snapshot = dev.rotate();
    assert_eq!(snapshot.len(), 3);
    for &idx in &snapshot {
        assert_eq!(dev.state(idx), SparseBlockState::SYNCING);
    }
    // Block 1 cannot be copied back.
    let copies = dev.cache.inner.copies_back(&snapshot);
    let mut copied = vec![];
    for (k, c) in copies.into_iter().enumerate() {
        let c = c.unwrap();
        if snapshot[k] == 1 {
            copied.push(false);
            continue;
        }
        let (from, to) = (c.offset as usize, c.offset as usize + c.len);
        let data = dev.flushing.as_ref().unwrap()[from..to].to_vec();
        dev.active[from..to].copy_from_slice(&data);
        copied.push(true);
    }
    dev.cache.inner.finish_skipped(&snapshot, &copied);
    assert_eq!(dev.state(0), SparseBlockState::DIRTY, "block 0 (recovered) should be DIRTY");
    assert_eq!(dev.state(2), SparseBlockState::DIRTY, "block 2 (recovered) should be DIRTY");
    assert_eq!(dev.state(1), SparseBlockState::SYNCING, "block 1 must stay SYNCING");
    for (idx, fill) in [(0usize, 0x70u8), (2usize, 0x72u8)] {
        assert!(filled(&dev.active[idx * 4096..(idx + 1) * 4096], fill), "block {}", idx);
    }
}

#[test]
fn test_flush_failure_does_not_block_subsequent_flush() {
    let mut dev = Device::small();
    for i in 0u8..3 {
        dev.write(i as u64 * 4096, &vec![i + 0xA0; 4096]).unwrap();
    }
    assert_eq!(dev.cache.dirty_block_count(), 3);
    assert!(dev.flush_with(true, |_| {}).is_none(), "flush should fail");
    assert!(!dev.cache.inner.flushing_open);
    assert!(dev.flushing.is_none());
    for i in 0usize..3 {
        assert_eq!(dev.state(i), SparseBlockState::DIRTY, "block {}", i);
    }
    let stats = dev.flush();
    assert!(stats.packs_uploaded > 0, "expected packs uploaded on second flush");
    for i in 0usize..3 {
        assert_eq!(dev.state(i), SparseBlockState::NOT_PRESENT, "block {}", i);
    }
}

#[test]
fn test_stranded_syncing_blocks_become_not_present() {
    let mut dev = Device::small();
    for i in 0u8..3 {
        dev.write(i as u64 * 4096, &vec![i + 0x70; 4096]).unwrap();
    }
    let snapshot = dev.rotate();
    assert_eq!(snapshot.len(), 3);
    for idx in [0usize, 2] {
        let (from, to) = (idx * 4096, (idx + 1) * 4096);
        let data = dev.flushing.as_ref().unwrap()[from..to].to_vec();
        dev.active[from..to].copy_from_slice(&data);
    }
    dev.cache.finish_failed_flush(&snapshot, &vec![true, false, true]);
    assert_eq!(dev.state(1), SparseBlockState::NOT_PRESENT, "stranded block 1");
    assert_eq!(dev.state(0), SparseBlockState::DIRTY);
    assert_eq!(dev.state(2), SparseBlockState::DIRTY);
    assert!(!dev.cache.inner.flushing_open);
    assert!(!dev.cache.inner.flushing_active);
}

const BIG: usize = 128 * 1024;

#[test]
fn test_cross_flush_dedup_same_offset_same_content() {
    let mut dev = Device::with_config(BIG as u64 * 4, BIG);
    dev.write(0, &vec![0xAA; BIG]).unwrap();
    assert!(dev.flush().packs_uploaded > 0, "first flush must upload");
    dev.write(0, &vec![0xAA; BIG]).unwrap();
    let stats2 = dev.flush();
    assert_eq!(stats2.blocks_cross_deduped, 1, "same content at same offset");
    assert_eq!(stats2.packs_uploaded, 0, "no pack needed");
    assert!(filled(&dev.read(0, BIG).unwrap(), 0xAA), "read must return written data");
}

#[test]
fn test_cross_flush_dedup_same_offset_different_content() {
    let mut dev = Device::with_config(BIG as u64 * 4, BIG);
    dev.write(0, &vec![0xAA; BIG]).unwrap();
    assert!(dev.flush().packs_uploaded > 0);
    dev.write(0, &vec![0xBB; BIG]).unwrap();
    let stats2 = dev.flush();
    assert_eq!(stats2.blocks_cross_deduped, 0, "different content must not dedup");
    assert!(stats2.packs_uploaded > 0, "new content needs a pack");
    assert!(filled(&dev.read(0, BIG).unwrap(), 0xBB), "read must return newest data");
}

#[test]
fn test_cross_flush_dedup_zero_no_prior_entry() {
    let mut dev = Device::with_config(BIG as u64 * 4, BIG);
    dev.write(0, &vec![0u8; BIG]).unwrap();
    let stats = dev.flush();
    assert_eq!(stats.blocks_cross_deduped, 1, "zero block with no prior entry");
    assert_eq!(stats.packs_uploaded, 0, "no pack needed for redundant zeros");
    assert!(filled(&dev.read(0, BIG).unwrap(), 0), "read must return zeros");
}

#[test]
fn test_cross_flush_dedup_zero_overrides_nonzero() {
    let mut dev = Device::with_config(BIG as u64 * 4, BIG);
    dev.write(0, &vec![0xCC; BIG]).unwrap();
    assert!(dev.flush().packs_uploaded > 0);
    dev.write(0, &vec![0u8; BIG]).unwrap();
    let stats2 = dev.flush();
    assert_eq!(stats2.blocks_cross_deduped, 0, "zero over non-zero must not dedup");
    assert!(stats2.packs_uploaded > 0, "tombstone pack needed");
    assert!(filled(&dev.read(0, BIG).unwrap(), 0), "read must return zeros after tombstone");
}

#[test]
fn test_cross_flush_dedup_partial() {
    let mut dev = Device::with_config(BIG as u64 * 8, BIG);
    for i in 0u8..3 {
        dev.write(i as u64 * BIG as u64, &vec![i + 1; BIG]).unwrap();
    }
    let stats1 = dev.flush();
    assert_eq!(stats1.blocks_claimed, 3);
    assert!(stats1.packs_uploaded > 0);
    dev.write(0, &vec![1u8; BIG]).unwrap();
    dev.write(BIG as u64, &vec![99u8; BIG]).unwrap();
    dev.write(2 * BIG as u64, &vec![3u8; BIG]).unwrap();
    let stats2 = dev.flush();
    assert_eq!(stats2.blocks_cross_deduped, 2, "blocks 0 and 2 deduped");
    assert!(stats2.packs_uploaded > 0, "block 1 needs a pack");
    assert!(filled(&dev.read(0, BIG).unwrap(), 1), "block 0: original data");
    assert!(filled(&dev.read(BIG as u64, BIG).unwrap(), 99), "block 1: new data");
    assert!(filled(&dev.read(2 * BIG as u64, BIG).unwrap(), 3), "block 2: original data");
}

#[test]
fn test_content_addressed_pack_id_dedup() {
    let mut dev = Device::with_config(BIG as u64 * 4, BIG);
    dev.write(0, &vec![0xDD; BIG]).unwrap();
    assert!(dev.flush().packs_uploaded > 0);
    dev.write(0, &vec![0xDD; BIG]).unwrap();
    let stats2 = dev.flush();
    assert_eq!(stats2.blocks_cross_deduped, 1);
    assert_eq!(stats2.packs_uploaded, 0);
    assert_eq!(stats2.packs_skipped, 0, "no pack built, nothing to skip at pack level");
}

#[test]
fn test_cross_flush_dedup_three_sequential_flushes() {
    let mut dev = Device::with_config(BIG as u64 * 8, BIG);
    dev.write(0, &vec![0xAA; BIG]).unwrap();
    dev.write(BIG as u64, &vec![0xBB; BIG]).unwrap();
    let s1 = dev.flush();
    assert!(s1.packs_uploaded > 0);
    assert_eq!(s1.blocks_cross_deduped, 0);
    dev.write(2 * BIG as u64, &vec![0xCC; BIG]).unwrap();
    dev.write(0, &vec![0xAA; BIG]).unwrap();
    let s2 = dev.flush();
    assert_eq!(s2.blocks_cross_deduped, 1, "block 0 deduped against flush 1");
    assert!(s2.packs_uploaded > 0, "block 2 is new");
    dev.write(BIG as u64, &vec![0xBB; BIG]).unwrap();
    dev.write(2 * BIG as u64, &vec![0xCC; BIG]).unwrap();
    let s3 = dev.flush();
    assert_eq!(s3.blocks_cross_deduped, 2, "both deduped against prior flushes");
    assert_eq!(s3.packs_uploaded, 0, "no new content");
    assert!(filled(&dev.read(0, BIG).unwrap(), 0xAA));
    assert!(filled(&dev.read(BIG as u64, BIG).unwrap(), 0xBB));
    assert!(filled(&dev.read(2 * BIG as u64, BIG).unwrap(), 0xCC));
}

#[test]
fn test_cross_flush_dedup_tombstone_lifecycle() {
    let mut dev = Device::with_config(BIG as u64 * 4, BIG);
    dev.write(0, &vec![0xEE; BIG]).unwrap();
    assert!(dev.flush().packs_uploaded > 0);
    dev.write(0, &vec![0u8; BIG]).unwrap();
    let s2 = dev.flush();
    assert_eq!(s2.blocks_cross_deduped, 0, "zero over non-zero needs tombstone");
    assert!(s2.packs_uploaded > 0, "tombstone pack uploaded");
    assert!(filled(&dev.read(0, BIG).unwrap(), 0), "reads zeros after tombstone");
    dev.write(0, &vec![0u8; BIG]).unwrap();
    let s3 = dev.flush();
    assert_eq!(s3.blocks_cross_deduped, 1, "zero deduped against existing tombstone");
    assert_eq!(s3.packs_uploaded, 0, "no pack needed");
    assert!(filled(&dev.read(0, BIG).unwrap(), 0), "still reads zeros");
}

#[test]
fn test_cross_flush_dedup_cold_read_from_s3() {
    let mut dev = Device::with_config(BIG as u64 * 4, BIG);
    dev.write(0, &vec![0x42; BIG]).unwrap();
    assert!(dev.flush().packs_uploaded > 0);
    dev.write(0, &vec![0x42; BIG]).unwrap();
    let s2 = dev.flush();
    assert_eq!(s2.blocks_cross_deduped, 1);
    assert_eq!(s2.packs_uploaded, 0);
    assert!(filled(&dev.read(0, BIG).unwrap(), 0x42), "cold read must return correct data");
}
