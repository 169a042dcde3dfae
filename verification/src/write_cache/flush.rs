//! Flushing dirty blocks to object storage.
//!
//! A flush rotates the data file, so that the blocks that it has claimed lie in
//! a flushing file which no write changes, hashes and packs them chunk by chunk,
//! and evicts them once every pack is uploaded. The caller moves the bytes; the
//! functions here decide.

use std::collections::HashSet;
use vstd::prelude::*;
use crate::checksum::crc32_iscsi_of;
use crate::write_cache::error::CacheError;
use crate::write_cache::inner::{all_zero, is_zero_block};
use crate::write_cache::page_crcs::{pages_match, verify_page_crcs, PAGE_SIZE};
use crate::write_cache::state_map::SparseBlockState;
use crate::write_cache::{no_stats, FlushStats};

verus! {

/// Content hash of a block.
pub type Blake3Hash = u128;

/// Identity of a pack object.
pub type PackId = u64;

/// Per-block result of the compute phase.
pub enum BlockResult {
    /// The hash of the block, with its compressed data. A zero block has none.
    Computed { chunk_index: usize, hash: Blake3Hash, compressed: Option<Vec<u8>> },
    /// Block skipped due to CRC mismatch or concurrent write.
    Skipped { chunk_index: usize, cas_failed: bool, crc_mismatched: bool },
}

/// What is to be done with the bytes of one block.
pub enum BlockStep {
    /// Nothing more has to be computed.
    Done(BlockResult),
    /// The block has to be hashed and compressed.
    Hash,
}

/// Result of the compute phase of one chunk.
pub struct FlushBatch {
    /// Compressed blocks ready for upload, one per distinct hash.
    pub to_upload: Vec<(Blake3Hash, Vec<u8>)>,
    /// Hash of each block that was not skipped.
    pub computed: Vec<(usize, Blake3Hash)>,
    /// Blocks that have to become dirty again.
    pub skipped: Vec<usize>,
    /// Partial statistics from the computation phase.
    pub stats: FlushStats,
}

/// Hashes and blocks, in the order of the results.
pub open spec fn computed_of(results: Seq<BlockResult>) -> Seq<(usize, Blake3Hash)>
    decreases results.len(),
{
    if results.len() == 0 {
        Seq::empty()
    } else {
        let before = computed_of(results.drop_last());
        match results.last() {
            BlockResult::Computed { chunk_index, hash, .. } => before.push((chunk_index, hash)),
            BlockResult::Skipped { .. } => before,
        }
    }
}

/// The skipped blocks, in the order of the results.
pub open spec fn skipped_of(results: Seq<BlockResult>) -> Seq<usize>
    decreases results.len(),
{
    if results.len() == 0 {
        Seq::empty()
    } else {
        let before = skipped_of(results.drop_last());
        match results.last() {
            BlockResult::Computed { .. } => before,
            BlockResult::Skipped { chunk_index, .. } => before.push(chunk_index),
        }
    }
}

/// Whether some upload has the hash.
pub open spec fn has_hash(uploads: Seq<(Blake3Hash, Vec<u8>)>, hash: Blake3Hash) -> bool {
    exists|i: int| 0 <= i < uploads.len() && (#[trigger] uploads[i]).0 == hash
}

/// The data to upload: the first block of each hash.
pub open spec fn uploads_of(results: Seq<BlockResult>) -> Seq<(Blake3Hash, Vec<u8>)>
    decreases results.len(),
{
    if results.len() == 0 {
        Seq::empty()
    } else {
        let before = uploads_of(results.drop_last());
        match results.last() {
            BlockResult::Computed { hash, compressed: Some(data), .. } => if has_hash(
                before,
                hash,
            ) {
                before
            } else {
                before.push((hash, data))
            },
            _ => before,
        }
    }
}

/// How many of the results satisfy `p`.
pub open spec fn count_results(results: Seq<BlockResult>, p: spec_fn(BlockResult) -> bool) -> nat
    decreases results.len(),
{
    if results.len() == 0 {
        0
    } else {
        count_results(results.drop_last(), p) + if p(results.last()) {
            1nat
        } else {
            0nat
        }
    }
}

/// Statistics of the compute phase. A block is deduplicated if it is a zero
/// block or the batch already has its data.
pub open spec fn batch_stats(results: Seq<BlockResult>) -> FlushStats {
    FlushStats {
        blocks_claimed: results.len() as usize,
        blocks_deduped: (computed_of(results).len() - uploads_of(results).len()) as usize,
        blocks_cas_failed: count_results(
            results,
            |r: BlockResult| r matches BlockResult::Skipped { cas_failed, .. } && cas_failed,
        ) as usize,
        blocks_crc_mismatched: count_results(
            results,
            |r: BlockResult|
                r matches BlockResult::Skipped { crc_mismatched, .. } && crc_mismatched,
        ) as usize,
        ..no_stats()
    }
}

/// The values of results that are all there.
pub open spec fn unwrapped(results: Seq<Result<BlockResult, CacheError>>) -> Seq<BlockResult> {
    Seq::new(results.len(), |i: int| results[i]->Ok_0)
}

/// The bytes of a block that lie on the device, filled up with zeros.
pub fn pad_block(bytes: Vec<u8>, block_size: usize) -> (block: Vec<u8>)
    requires
        bytes@.len() <= block_size,
    ensures
        block@ == bytes@ + Seq::new((block_size - bytes@.len()) as nat, |i: int| 0u8),
{
    let mut block: Vec<u8> = bytes;
    let ghost valid = block@;
    while block.len() < block_size
        invariant
            valid.len() <= block@.len() <= block_size,
            block@ == valid + Seq::new((block@.len() - valid.len()) as nat, |i: int| 0u8),
        decreases block_size - block@.len(),
    {
        block.push(0);
        assert(block@ =~= valid + Seq::new((block@.len() - valid.len()) as nat, |i: int| 0u8));
    }
    block
}

/// What is to be done with a block that a flush has claimed and read.
///
/// Its pages are compared with the checksums captured when they were written. A
/// mismatch is benign where the block is no longer `SYNCING`, since a write has
/// made it dirty again; otherwise it is retried in the next cycle. A zero block
/// needs no data.
pub fn compute_block(
    chunk_index: usize,
    block: &[u8],
    crcs: Option<&Vec<u32>>,
    state: u8,
    zero_hash: Blake3Hash,
) -> (step: BlockStep)
    requires
        crcs matches Some(c) ==> c@.len() * PAGE_SIZE <= block@.len(),
    ensures
        step == (if crcs matches Some(c) && !pages_match(block@, c@) {
            BlockStep::Done(
                BlockResult::Skipped {
                    chunk_index,
                    cas_failed: state != SparseBlockState::SYNCING,
                    crc_mismatched: true,
                },
            )
        } else if all_zero(block@) {
            BlockStep::Done(
                BlockResult::Computed { chunk_index, hash: zero_hash, compressed: None },
            )
        } else {
            BlockStep::Hash
        }),
{
    let matched: bool = match crcs {
        Some(crcs) => verify_page_crcs(block, crcs),
        None => true,
    };
    if !matched {
        return BlockStep::Done(
            BlockResult::Skipped {
                chunk_index,
                cas_failed: state != SparseBlockState::SYNCING,
                crc_mismatched: true,
            },
        );
    }
    if is_zero_block(block) {
        return BlockStep::Done(
            BlockResult::Computed { chunk_index, hash: zero_hash, compressed: None },
        );
    }
    BlockStep::Hash
}

proof fn lemma_batch_bounds(results: Seq<BlockResult>)
    ensures
        uploads_of(results).len() <= computed_of(results).len() <= results.len(),
        batch_stats(results).blocks_claimed <= results.len(),
        count_results(
            results,
            |r: BlockResult| r matches BlockResult::Skipped { cas_failed, .. } && cas_failed,
        ) <= results.len(),
        count_results(
            results,
            |r: BlockResult|
                r matches BlockResult::Skipped { crc_mismatched, .. } && crc_mismatched,
        ) <= results.len(),
    decreases results.len(),
{
    if results.len() > 0 {
        lemma_batch_bounds(results.drop_last());
    }
}

/// Gathers the per-block results of a chunk in order, with deduplication inside
/// the batch: of several blocks with one hash, the first is uploaded. The first
/// failure ends the batch.
pub fn compute_flush_batch(per_block: Vec<Result<BlockResult, CacheError>>) -> (result: Result<
    FlushBatch,
    CacheError,
>)
    ensures
        match result {
            Ok(batch) => {
                &&& forall|i: int| 0 <= i < per_block@.len() ==> (#[trigger] per_block@[i]) is Ok
                &&& batch.computed@ == computed_of(unwrapped(per_block@))
                &&& batch.skipped@ == skipped_of(unwrapped(per_block@))
                &&& batch.to_upload@ == uploads_of(unwrapped(per_block@))
                &&& batch.stats == batch_stats(unwrapped(per_block@))
            },
            Err(e) => exists|i: int|
                0 <= i < per_block@.len() && #[trigger] per_block@[i] == Err::<
                    BlockResult,
                    CacheError,
                >(e) && forall|j: int| 0 <= j < i ==> (#[trigger] per_block@[j]) is Ok,
        },
{
    let ghost all = per_block@;
    let n: usize = per_block.len();
    let mut stats = FlushStats::default();
    let mut to_upload: Vec<(Blake3Hash, Vec<u8>)> = Vec::new();
    let mut seen: HashSet<Blake3Hash> = HashSet::new();
    let mut computed: Vec<(usize, Blake3Hash)> = Vec::new();
    let mut skipped: Vec<usize> = Vec::new();
    for result in it: per_block
        invariant
            it.seq() == all,
            all.len() == n,
            forall|j: int| 0 <= j < it.index() ==> (#[trigger] all[j]) is Ok,
            computed@ == computed_of(unwrapped(all.take(it.index()))),
            skipped@ == skipped_of(unwrapped(all.take(it.index()))),
            to_upload@ == uploads_of(unwrapped(all.take(it.index()))),
            stats == batch_stats(unwrapped(all.take(it.index()))),
            forall|hash: Blake3Hash|
                seen@.contains(hash) == #[trigger] has_hash(
                    uploads_of(unwrapped(all.take(it.index()))),
                    hash,
                ),
    {
        broadcast use vstd::std_specs::hash::group_hash_axioms;

        let ghost k = it.index();
        let ghost before = unwrapped(all.take(k));
        let ghost upto = unwrapped(all.take(k + 1));
        proof {
            lemma_batch_bounds(before);
            lemma_batch_bounds(upto);
        }
        let result = match result {
            Err(e) => {
                assert(all[k] == Err::<BlockResult, CacheError>(e));
                return Err(e);
            },
            Ok(result) => result,
        };
        proof {
            assert(upto.drop_last() =~= before);
            assert(upto.last() == result);
        }
        let ghost seen0 = seen@;
        let ghost uploads0 = to_upload@;
        match result {
            BlockResult::Skipped { chunk_index, cas_failed, crc_mismatched } => {
                stats.blocks_claimed = stats.blocks_claimed + 1;
                skipped.push(chunk_index);
                if cas_failed {
                    stats.blocks_cas_failed = stats.blocks_cas_failed + 1;
                }
                if crc_mismatched {
                    stats.blocks_crc_mismatched = stats.blocks_crc_mismatched + 1;
                }
            },
            BlockResult::Computed { chunk_index, hash, compressed } => {
                stats.blocks_claimed = stats.blocks_claimed + 1;
                computed.push((chunk_index, hash));
                match compressed {
                    None => {
                        stats.blocks_deduped = stats.blocks_deduped + 1;
                    },
                    Some(data) => {
                        assert(seen@.contains(hash) == has_hash(uploads_of(before), hash));
                        if !seen.insert(hash) {
                            stats.blocks_deduped = stats.blocks_deduped + 1;
                        } else {
                            to_upload.push((hash, data));
                        }
                    },
                }
            },
        }
        proof {
            assert forall|h: Blake3Hash| seen@.contains(h) == #[trigger] has_hash(
                uploads_of(upto),
                h,
            ) by {
                assert(seen0.contains(h) == has_hash(uploads0, h));
                if has_hash(uploads0, h) {
                    let i = choose|i: int|
                        0 <= i < uploads0.len() && (#[trigger] uploads0[i]).0 == h;
                    assert(to_upload@[i].0 == h);
                }
                if has_hash(to_upload@, h) && !has_hash(uploads0, h) {
                    let i = choose|i: int|
                        0 <= i < to_upload@.len() && (#[trigger] to_upload@[i]).0 == h;
                    if i < uploads0.len() {
                        assert(uploads0[i].0 == h);
                    }
                }
                if to_upload@.len() > uploads0.len() {
                    assert(to_upload@[uploads0.len() as int].0 == to_upload@.last().0);
                }
            }
        }
    }
    assert(all.take(n as int) =~= all);
    Ok(FlushBatch { to_upload, computed, skipped, stats })
}

/// A hash is uploaded once, and every hash with data is uploaded.
pub proof fn law_uploads_are_distinct_and_complete(results: Seq<BlockResult>)
    ensures
        forall|i: int, j: int|
            0 <= i < j < uploads_of(results).len() ==> (#[trigger] uploads_of(results)[i]).0 != (
            #[trigger] uploads_of(results)[j]).0,
        forall|i: int|
            0 <= i < results.len() && (#[trigger] results[i] matches BlockResult::Computed {
                compressed: Some(_),
                ..
            }) ==> has_hash(uploads_of(results), results[i]->hash),
    decreases results.len(),
{
    if results.len() > 0 {
        let rest = results.drop_last();
        law_uploads_are_distinct_and_complete(rest);
        let before = uploads_of(rest);
        let all = uploads_of(results);
        assert forall|i: int, j: int| 0 <= i < j < all.len() implies (#[trigger] all[i]).0 != (
        #[trigger] all[j]).0 by {
            if j < before.len() {
                assert(before[i].0 != before[j].0);
            } else if all[i].0 == all[j].0 {
                assert(before[i].0 == all[j].0);
                assert(has_hash(before, all[j].0));
            }
        }
        assert forall|i: int|
            0 <= i < results.len() && (#[trigger] results[i] matches BlockResult::Computed {
                compressed: Some(_),
                ..
            }) implies has_hash(all, results[i]->hash) by {
            let hash = results[i]->hash;
            if i < rest.len() {
                assert(rest[i] == results[i]);
            }
            if has_hash(before, hash) {
                let k = choose|k: int| 0 <= k < before.len() && (#[trigger] before[k]).0 == hash;
                assert(all[k].0 == hash);
            } else {
                assert(all[all.len() - 1].0 == hash);
            }
        }
    }
}

proof fn lemma_computed(results: Seq<BlockResult>)
    ensures
        computed_of(results) == results.filter(|r: BlockResult| r is Computed).map_values(
            |r: BlockResult| (r->Computed_chunk_index, r->hash),
        ),
        skipped_of(results) == results.filter(|r: BlockResult| r is Skipped).map_values(
            |r: BlockResult| r->Skipped_chunk_index,
        ),
        computed_of(results).len() + skipped_of(results).len() == results.len(),
    decreases results.len(),
{
    reveal(Seq::filter);
    let c = |r: BlockResult| r is Computed;
    let k = |r: BlockResult| r is Skipped;
    let cm = |r: BlockResult| (r->Computed_chunk_index, r->hash);
    let km = |r: BlockResult| r->Skipped_chunk_index;
    if results.len() > 0 {
        let rest = results.drop_last();
        let last = results.last();
        lemma_computed(rest);
        if last is Computed {
            assert(results.filter(c) =~= rest.filter(c).push(last));
            assert(results.filter(c).map_values(cm) =~= rest.filter(c).map_values(cm).push(
                cm(last),
            ));
        } else {
            assert(results.filter(k) =~= rest.filter(k).push(last));
            assert(results.filter(k).map_values(km) =~= rest.filter(k).map_values(km).push(
                km(last),
            ));
        }
    } else {
        assert(computed_of(results) =~= results.filter(c).map_values(cm));
        assert(skipped_of(results) =~= results.filter(k).map_values(km));
    }
}

proof fn lemma_count_is_filter(results: Seq<BlockResult>, p: spec_fn(BlockResult) -> bool)
    ensures
        count_results(results, p) == results.filter(p).len(),
    decreases results.len(),
{
    reveal(Seq::filter);
    if results.len() > 0 {
        lemma_count_is_filter(results.drop_last(), p);
    }
}

/// Whether a result has data for the hash.
pub open spec fn has_data(r: BlockResult, hash: Blake3Hash) -> bool {
    r matches BlockResult::Computed { hash: h, compressed: Some(_), .. } && h == hash
}

/// What is uploaded for a hash is the data of the first block with that hash.
pub proof fn law_first_data_is_uploaded(results: Seq<BlockResult>)
    ensures
        forall|k: int|
            0 <= k < uploads_of(results).len() ==> {
                let upload = #[trigger] uploads_of(results)[k];
                exists|i: int|
                    #![trigger results[i]]
                    0 <= i < results.len() && (results[i] matches BlockResult::Computed {
                        hash,
                        compressed: Some(data),
                        ..
                    } && hash == upload.0 && data == upload.1) && forall|j: int|
                        0 <= j < i ==> !has_data(#[trigger] results[j], upload.0)
            },
    decreases results.len(),
{
    if results.len() > 0 {
        let rest = results.drop_last();
        let n = results.len() - 1;
        law_first_data_is_uploaded(rest);
        law_uploads_are_distinct_and_complete(rest);
        let before = uploads_of(rest);
        let all = uploads_of(results);
        assert forall|k: int| 0 <= k < all.len() implies {
            let upload = #[trigger] all[k];
            exists|i: int|
                #![trigger results[i]]
                0 <= i < results.len() && (results[i] matches BlockResult::Computed {
                    hash,
                    compressed: Some(data),
                    ..
                } && hash == upload.0 && data == upload.1) && forall|j: int|
                    0 <= j < i ==> !has_data(#[trigger] results[j], upload.0)
        } by {
            let upload = all[k];
            if k < before.len() {
                assert(before[k] == upload);
                let i = choose|i: int|
                    #![trigger rest[i]]
                    0 <= i < rest.len() && (rest[i] matches BlockResult::Computed {
                        hash,
                        compressed: Some(data),
                        ..
                    } && hash == upload.0 && data == upload.1) && forall|j: int|
                        0 <= j < i ==> !has_data(#[trigger] rest[j], upload.0);
                assert(results[i] == rest[i]);
                assert forall|j: int| 0 <= j < i implies !has_data(
                    #[trigger] results[j],
                    upload.0,
                ) by {
                    assert(results[j] == rest[j]);
                }
            } else {
                assert(results[n] == results.last());
                assert forall|j: int| 0 <= j < n implies !has_data(
                    #[trigger] results[j],
                    upload.0,
                ) by {
                    assert(results[j] == rest[j]);
                    if has_data(rest[j], upload.0) {
                        assert(rest[j] matches BlockResult::Computed { compressed: Some(_), .. });
                        assert(has_hash(before, upload.0));
                    }
                }
            }
        }
    }
}

/// A batch holds the hash of every block that was computed and every block that was skipped, in
/// their order. It uploads the data of each hash once, and never that of another block. Every
/// block counts as claimed, those that need no upload of their own as deduplicated, and the
/// skipped ones by their reason. It fails exactly if a block failed.
pub proof fn law_batch_holds_every_block(
    per_block: Vec<Result<BlockResult, CacheError>>,
    result: Result<FlushBatch, CacheError>,
)
    requires
        call_ensures(compute_flush_batch, (per_block,), result),
    ensures
        result is Ok <==> forall|i: int|
            0 <= i < per_block@.len() ==> (#[trigger] per_block@[i]) is Ok,
        result matches Ok(batch) ==> {
            let results = per_block@.map_values(
                |r: Result<BlockResult, CacheError>| r->Ok_0,
            );
            &&& batch.computed@ == results.filter(|r: BlockResult| r is Computed).map_values(
                |r: BlockResult| (r->Computed_chunk_index, r->hash),
            )
            &&& batch.skipped@ == results.filter(|r: BlockResult| r is Skipped).map_values(
                |r: BlockResult| r->Skipped_chunk_index,
            )
            &&& batch.computed@.len() + batch.skipped@.len() == per_block@.len()
            &&& forall|i: int, j: int|
                0 <= i < j < batch.to_upload@.len() ==> (#[trigger] batch.to_upload@[i]).0 != (
                #[trigger] batch.to_upload@[j]).0
            &&& forall|i: int|
                0 <= i < results.len() && (#[trigger] results[i] matches BlockResult::Computed {
                    compressed: Some(_),
                    ..
                }) ==> exists|k: int|
                    0 <= k < batch.to_upload@.len() && (#[trigger] batch.to_upload@[k]).0
                        == results[i]->hash
            &&& batch.stats.blocks_claimed == per_block@.len()
            &&& batch.stats.blocks_deduped + batch.to_upload@.len() == batch.computed@.len()
            &&& batch.stats.blocks_cas_failed == results.filter(
                |r: BlockResult| r matches BlockResult::Skipped { cas_failed, .. } && cas_failed,
            ).len()
            &&& batch.stats.blocks_crc_mismatched == results.filter(
                |r: BlockResult|
                    r matches BlockResult::Skipped { crc_mismatched, .. } && crc_mismatched,
            ).len()
        },
{
    if let Ok(batch) = result {
        let results = per_block@.map_values(|r: Result<BlockResult, CacheError>| r->Ok_0);
        assert(results =~= unwrapped(per_block@));
        lemma_computed(results);
        lemma_batch_bounds(results);
        law_uploads_are_distinct_and_complete(results);
        assert(per_block.len() <= usize::MAX);
        lemma_count_is_filter(
            results,
            |r: BlockResult| r matches BlockResult::Skipped { cas_failed, .. } && cas_failed,
        );
        lemma_count_is_filter(
            results,
            |r: BlockResult|
                r matches BlockResult::Skipped { crc_mismatched, .. } && crc_mismatched,
        );
        assert forall|i: int|
            0 <= i < results.len() && (#[trigger] results[i] matches BlockResult::Computed {
                compressed: Some(_),
                ..
            }) implies exists|k: int|
            0 <= k < batch.to_upload@.len() && (#[trigger] batch.to_upload@[k]).0
                == results[i]->hash by {
            assert(has_hash(uploads_of(results), results[i]->hash));
        }
    }
}

/// A block is skipped exactly if a known checksum does not match its page. Of the others, one
/// with zeros only needs no data, and every other one is hashed.
pub proof fn law_damaged_blocks_are_skipped(
    chunk_index: usize,
    block: &[u8],
    crcs: Option<&Vec<u32>>,
    state: u8,
    zero_hash: Blake3Hash,
    step: BlockStep,
)
    requires
        call_ensures(compute_block, (chunk_index, block, crcs, state, zero_hash), step),
    ensures
        ({
            let damaged = crcs is Some && exists|p: int|
                0 <= p < crcs->Some_0@.len() && #[trigger] crcs->Some_0@[p] != 0 && crc32_iscsi_of(
                    block@.subrange(p * 4096, (p + 1) * 4096),
                ) != crcs->Some_0@[p];
            let empty = forall|i: int| 0 <= i < block@.len() ==> #[trigger] block@[i] == 0;
            &&& damaged ==> step == BlockStep::Done(
                BlockResult::Skipped {
                    chunk_index,
                    cas_failed: state != 3,
                    crc_mismatched: true,
                },
            )
            &&& !damaged && empty ==> step == BlockStep::Done(
                BlockResult::Computed { chunk_index, hash: zero_hash, compressed: None },
            )
            &&& !damaged && !empty ==> step is Hash
        }),
{
    if crcs is Some {
        let c = crcs->Some_0@;
        assert forall|p: int| 0 <= p < c.len() implies #[trigger] block@.subrange(
            p * 4096,
            (p + 1) * 4096,
        ) == block@.subrange(p * PAGE_SIZE, p * PAGE_SIZE + PAGE_SIZE) by {}
        if !pages_match(block@, c) {
            let p = choose|p: int|
                0 <= p < c.len() && #[trigger] c[p] != 0 && !(c[p] == crc32_iscsi_of(
                    block@.subrange(p * PAGE_SIZE, p * PAGE_SIZE + PAGE_SIZE),
                ));
            assert(c[p] != 0 && crc32_iscsi_of(block@.subrange(p * 4096, (p + 1) * 4096)) != c[p]);
        }
    }
    assert(all_zero(block@) <==> forall|i: int|
        0 <= i < block@.len() ==> #[trigger] block@[i] == 0);
}

/// A padded block has the size of a block: the bytes that lie on the device, and zeros.
pub proof fn law_padded_block(bytes: Vec<u8>, block_size: usize, block: Vec<u8>)
    requires
        call_ensures(pad_block, (bytes, block_size), block),
        bytes@.len() <= block_size,
    ensures
        block@.len() == block_size,
        forall|i: int| 0 <= i < bytes@.len() ==> #[trigger] block@[i] == bytes@[i],
        forall|i: int| bytes@.len() <= i < block_size ==> #[trigger] block@[i] == 0,
{
}

} // verus!
