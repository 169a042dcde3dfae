//! What reads see across promotions and writes.
//!
//! The functions of the cache move no bytes. This module relates their decisions
//! to the contents of the files, as a caller that carries the decisions out
//! leaves them.

use vstd::prelude::*;
use crate::write_cache::config::ceil_div;
use crate::write_cache::geometry::{
    block_start, first_block, last_block, lemma_block_on_device, lemma_range_blocks, valid_len,
};
use crate::write_cache::blocks::law_counters_follow_states;
use crate::write_cache::inner::CacheState;
use crate::write_cache::promote::{
    promote_check, promote_stop, promoted, released, scan_outcome, PromoteAction, Promotion,
};
use crate::write_cache::read::{local_read, LocalRead};
use crate::write_cache::rotate::{law_rotation_claims_all_dirty, rotation_marked};
use crate::write_cache::state_map::SparseBlockState;
use crate::write_cache::write::{
    law_claim_range, law_commit_dirties_range, range_claimed, range_dirtied,
};

verus! {

/// The contents of the data files.
pub struct Files {
    pub active: Seq<u8>,
    pub flushing: Seq<u8>,
}

/// Whether both files have the size of the device, and the states cover it.
pub open spec fn matching(s: CacheState, f: Files) -> bool {
    &&& s.bs() > 0
    &&& s.num_blocks() == ceil_div(s.ds(), s.bs())
    &&& s.num_blocks() <= usize::MAX
    &&& f.active.len() == s.ds()
    &&& f.flushing.len() == s.ds()
}

/// The bytes of a block in a file.
pub open spec fn block_bytes(file: Seq<u8>, s: CacheState, block: int) -> Seq<u8> {
    let start = block_start(block, s.bs());
    file.subrange(start, start + valid_len(block, s.bs(), s.ds()))
}

/// What a local read of a block returns, where there is a local copy.
pub open spec fn local_bytes(s: CacheState, f: Files, block: int) -> Option<Seq<u8>> {
    match local_read(s, block) {
        LocalRead::Flushing(copy) => Some(
            f.flushing.subrange(copy.offset as int, copy.offset + copy.len),
        ),
        LocalRead::Active(copy) => Some(
            f.active.subrange(copy.offset as int, copy.offset + copy.len),
        ),
        _ => None,
    }
}

/// A file after `data` was written at `offset`.
pub open spec fn overwritten(file: Seq<u8>, offset: int, data: Seq<u8>) -> Seq<u8> {
    Seq::new(
        file.len(),
        |i: int|
            if offset <= i < offset + data.len() {
                data[i - offset]
            } else {
                file[i]
            },
    )
}

/// The bytes of a block after `data` was written at `offset` of the device.
pub open spec fn overlaid(bytes: Seq<u8>, start: int, offset: int, data: Seq<u8>) -> Seq<u8> {
    Seq::new(
        bytes.len(),
        |i: int|
            if offset <= start + i < offset + data.len() {
                data[start + i - offset]
            } else {
                bytes[i]
            },
    )
}

pub proof fn lemma_local_bytes(s: CacheState, f: Files, block: int)
    requires
        matching(s, f),
        0 <= block < s.num_blocks(),
    ensures
        local_bytes(s, f, block) == (if s.state(block) == SparseBlockState::NOT_PRESENT {
            None
        } else if s.state(block) == SparseBlockState::SYNCING && s.flushing_open {
            Some(block_bytes(f.flushing, s, block))
        } else {
            Some(block_bytes(f.active, s, block))
        }),
        block_start(block, s.bs()) + valid_len(block, s.bs(), s.ds()) <= s.ds(),
        0 <= block_start(block, s.bs()),
{
    lemma_block_on_device(block, s.bs(), s.ds());
}

/// Blocks do not overlap.
pub proof fn lemma_disjoint(a: int, b: int, block_size: int)
    requires
        block_size > 0,
        a < b,
    ensures
        block_start(a, block_size) + block_size <= block_start(b, block_size),
{
    assert((a + 1) * block_size <= b * block_size) by (nonlinear_arith)
        requires
            a + 1 <= b,
            block_size > 0,
    ;
    assert((a + 1) * block_size == a * block_size + block_size) by (nonlinear_arith);
}

/// A promotion never changes what a read sees. When a block was copied from the
/// flushing file to the active file and marked, every block with a local copy
/// still has one, with the same bytes, and the counters stay in step.
pub proof fn law_promotion_preserves_reads(s: CacheState, f: Files, p: Promotion, block: int)
    requires
        matching(s, f),
        s.flushing_open,
        p.phase is Writing,
        p.seen() == SparseBlockState::SYNCING || p.seen() == SparseBlockState::NOT_PRESENT,
        p.block < s.num_blocks(),
        s.state(p.block as int) == p.seen(),
        0 <= block < s.num_blocks(),
        local_bytes(s, f, block) is Some,
    ensures
        ({
            let after = CacheState {
                blocks: promoted(s.blocks, p.block as int, p.seen()),
                ..released(s, p)
            };
            let files = Files {
                active: overwritten(
                    f.active,
                    block_start(p.block as int, s.bs()),
                    block_bytes(f.flushing, s, p.block as int),
                ),
                ..f
            };
            &&& local_bytes(after, files, block) == local_bytes(s, f, block)
            &&& after.state(p.block as int) == SparseBlockState::DIRTY
            &&& s.blocks.counted() ==> after.blocks.counted()
        }),
{
    let at = p.block as int;
    let after = CacheState { blocks: promoted(s.blocks, at, p.seen()), ..released(s, p) };
    let files = Files {
        active: overwritten(
            f.active,
            block_start(at, s.bs()),
            block_bytes(f.flushing, s, at),
        ),
        ..f
    };
    lemma_promoted_counters(s, at);
    lemma_local_bytes(s, f, block);
    lemma_local_bytes(s, f, at);
    lemma_local_bytes(after, files, block);
    lemma_block_on_device(block, s.bs(), s.ds());
    lemma_block_on_device(at, s.bs(), s.ds());
    if block == at {
        assert(block_bytes(files.active, s, block) =~= block_bytes(f.flushing, s, block));
    } else {
        if block < at {
            lemma_disjoint(block, at, s.bs());
        } else {
            lemma_disjoint(at, block, s.bs());
        }
        assert(block_bytes(files.active, s, block) =~= block_bytes(f.active, s, block));
    }
}

proof fn lemma_promoted_counters(s: CacheState, at: int)
    requires
        s.blocks.has(at),
        s.num_blocks() <= u64::MAX,
    ensures
        s.blocks.counted() ==> s.blocks.made_dirty(at).counted(),
        s.state(at) == SparseBlockState::SYNCING || s.state(at) == SparseBlockState::NOT_PRESENT
            ==> promoted(s.blocks, at, s.state(at)) == s.blocks.made_dirty(at),
{
    if s.blocks.counted() {
        law_counters_follow_states(s.blocks, at);
    }
}

/// Whether no block from `from` up to but not including `to` has its data in the
/// flushing file alone.
pub open spec fn ready(s: CacheState, from: int, to: int) -> bool {
    forall|block: int|
        from <= block < to && 0 <= block < s.num_blocks() ==> #[trigger] s.state(block)
            != SparseBlockState::SYNCING
}

/// A promotion with a flushing file passes over a block only once the active file
/// is the place of its data: when it ends well, the rest of its range is ready to
/// be written.
pub proof fn law_promotion_ends_ready(
    s: CacheState,
    p: Promotion,
    block: int,
    after: CacheState,
    q: Promotion,
    action: PromoteAction,
)
    requires
        p.flushing,
        0 <= block,
        scan_outcome(s, p, block, after, q, action),
    ensures
        ready(s, block, promote_stop(s, p, block)),
        action is Done ==> ready(after, block, p.end_block + 1),
        after.blocks == s.blocks,
{
    lemma_stop_ready(s, p, block);
}

proof fn lemma_stop_ready(s: CacheState, p: Promotion, block: int)
    requires
        p.flushing,
        0 <= block,
    ensures
        ready(s, block, promote_stop(s, p, block)),
        promote_stop(s, p, block) >= block,
    decreases p.end_block + 1 - block,
{
    if block <= p.end_block && promote_check(s, p, block) is Pass {
        lemma_stop_ready(s, p, block + 1);
        assert forall|b: int|
            block <= b < promote_stop(s, p, block) && 0 <= b < s.num_blocks() implies #[trigger] s.state(b)
            != SparseBlockState::SYNCING by {
            if b > block {
                assert(block + 1 <= b);
            }
        }
    }
}

/// A read gives back what was written. When the blocks of a range are ready, the
/// range is claimed, `data` is written to the active file and the write is
/// committed, then a local read of every block that the range touches sees the
/// old bytes with `data` laid over them, and every other local copy is as before.
pub proof fn law_write_reads_back(
    s: CacheState,
    f: Files,
    offset: int,
    data: Seq<u8>,
    block: int,
)
    requires
        matching(s, f),
        0 <= offset,
        0 < data.len(),
        offset + data.len() <= s.ds(),
        s.flushing_open ==> ready(
            s,
            first_block(offset, s.bs()),
            last_block(offset, data.len() as int, s.bs()) + 1,
        ),
        0 <= block < s.num_blocks(),
    ensures
        ({
            let len = data.len() as int;
            let after = range_dirtied(range_claimed(s, offset, len), offset, len);
            let files = Files { active: overwritten(f.active, offset, data), ..f };
            let touched = first_block(offset, s.bs()) <= block <= last_block(offset, len, s.bs());
            let start = block_start(block, s.bs());
            &&& touched ==> local_bytes(after, files, block) == Some(
                overlaid(block_bytes(f.active, s, block), start, offset, data),
            )
            &&& touched && local_bytes(s, f, block) is Some ==> local_bytes(after, files, block)
                == Some(overlaid(local_bytes(s, f, block)->Some_0, start, offset, data))
            &&& !touched ==> local_bytes(after, files, block) == local_bytes(s, f, block)
        }),
{
    let len = data.len() as int;
    let claimed = range_claimed(s, offset, len);
    let after = range_dirtied(claimed, offset, len);
    let files = Files { active: overwritten(f.active, offset, data), ..f };
    let first = first_block(offset, s.bs());
    let last = last_block(offset, len, s.bs());
    let start = block_start(block, s.bs());
    lemma_range_blocks(offset, len, s.bs(), s.ds());
    law_claim_range(s, offset, len);
    law_commit_dirties_range(claimed, offset, len);
    assert(claimed.state(block) == if first <= block <= last && s.state(block)
        == SparseBlockState::NOT_PRESENT {
        SparseBlockState::CLEAN
    } else {
        s.state(block)
    });
    assert(after.state(block) == if first <= block <= last {
        SparseBlockState::DIRTY
    } else {
        claimed.state(block)
    });
    lemma_local_bytes(s, f, block);
    lemma_local_bytes(after, files, block);
    lemma_block_on_device(block, s.bs(), s.ds());
    if first <= block <= last {
        assert(block_bytes(files.active, s, block) =~= overlaid(
            block_bytes(f.active, s, block),
            start,
            offset,
            data,
        ));
        if s.flushing_open {
            assert(s.state(block) != SparseBlockState::SYNCING);
        }
    } else {
        if block < first {
            lemma_disjoint(block, first, s.bs());
        } else {
            lemma_disjoint(last, block, s.bs());
        }
        assert(block_bytes(files.active, s, block) =~= block_bytes(f.active, s, block));
    }
}

/// A rotation changes nothing that a read sees: the dirty blocks lie in the
/// flushing file, which has the contents of the old active file, and are read
/// from there. Blocks that were claimed for writing but not committed, or still
/// claimed by an earlier flush, are left out: a rotation moves them out of the
/// active file without claiming them.
pub proof fn law_rotation_preserves_reads(s: CacheState, f: Files, fresh: Seq<u8>, block: int)
    requires
        matching(s, f),
        fresh.len() == s.ds(),
        0 <= block < s.num_blocks(),
        s.state(block) == SparseBlockState::DIRTY || s.state(block)
            == SparseBlockState::NOT_PRESENT,
    ensures
        ({
            let after = CacheState {
                blocks: s.blocks.claimed_upto(s.blocks.states.len()),
                flushing_open: true,
                ..rotation_marked(s)
            };
            let files = Files { active: fresh, flushing: f.active };
            local_bytes(after, files, block) == local_bytes(s, f, block)
        }),
{
    law_rotation_claims_all_dirty(s);
    let after = CacheState {
        blocks: s.blocks.claimed_upto(s.blocks.states.len()),
        flushing_open: true,
        ..rotation_marked(s)
    };
    let files = Files { active: fresh, flushing: f.active };
    assert(after.blocks.states[block] == if s.blocks.states[block] == SparseBlockState::DIRTY {
        SparseBlockState::SYNCING
    } else {
        s.blocks.states[block]
    });
    lemma_local_bytes(s, f, block);
    lemma_local_bytes(after, files, block);
}

} // verus!
