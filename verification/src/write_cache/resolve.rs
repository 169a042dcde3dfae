//! Reads that the active file alone cannot serve: from where each block is found
//! to the data of all of them.

use vstd::prelude::*;
use crate::write_cache::error::CacheError;
use crate::write_cache::flush::{Blake3Hash, PackId};
use crate::write_cache::geometry::{
    first_block, last_block, law_range_touches_blocks, lemma_range_blocks,
};
use crate::write_cache::locate::{FetchEntry, PackView};
use crate::write_cache::{Active, WriteCache};

verus! {

/// Where a block of a read is found.
pub enum Located {
    /// On the local disk or in the clean cache.
    Data(Vec<u8>),
    /// Nowhere: it is all zeros.
    Zero,
    /// In a pack, from which it has to be fetched.
    NeedsFetch {
        pack_id: PackId,
        chunk_idx: u32,
        expected_hash: Blake3Hash,
        offset: u32,
        comp_len: u32,
    },
}

/// The data of the blocks of a read, as far as it is there, and what has to be
/// fetched.
pub struct Partitioned {
    pub blocks: Vec<Option<Vec<u8>>>,
    pub fetch: Vec<FetchEntry>,
}

/// A block of zeros.
pub open spec fn zero_block(block_size: usize) -> Seq<u8> {
    Seq::new(block_size as nat, |i: int| 0u8)
}

/// Whether `block` is the data of a located block, or nothing if it has to be
/// fetched.
pub open spec fn data_of(located: Located, block: Option<Vec<u8>>, block_size: usize) -> bool {
    match located {
        Located::Data(data) => block == Some(data),
        Located::Zero => block matches Some(data) && data@ == zero_block(block_size),
        Located::NeedsFetch { .. } => block is None,
    }
}

/// What has to be fetched of the first blocks of a read, in their order.
pub open spec fn to_fetch(located: Seq<Located>) -> Seq<FetchEntry>
    decreases located.len(),
{
    if located.len() == 0 {
        Seq::empty()
    } else {
        let before = to_fetch(located.drop_last());
        match located.last() {
            Located::NeedsFetch { pack_id, chunk_idx, expected_hash, offset, comp_len } => before.push(
                FetchEntry {
                    idx: (located.len() - 1) as usize,
                    pack_id,
                    chunk_idx,
                    expected_hash,
                    offset,
                    comp_len,
                },
            ),
            _ => before,
        }
    }
}

fn make_zero_block(block_size: usize) -> (block: Vec<u8>)
    ensures
        block@ == zero_block(block_size),
{
    let mut block: Vec<u8> = Vec::new();
    let mut i: usize = 0;
    while i < block_size
        invariant
            i <= block_size,
            block@ == zero_block(i),
        decreases block_size - i,
    {
        block.push(0);
        i = i + 1;
        assert(block@ =~= zero_block(i));
    }
    block
}

/// Parts the blocks of a read into those whose data is there and those that have
/// to be fetched.
pub fn partition_located(located: Vec<Located>, block_size: usize) -> (parts: Partitioned)
    ensures
        parts.blocks@.len() == located@.len(),
        forall|i: int|
            0 <= i < located@.len() ==> data_of(
                #[trigger] located@[i],
                parts.blocks@[i],
                block_size,
            ),
        parts.fetch@ == to_fetch(located@),
{
    let ghost all = located@;
    let mut blocks: Vec<Option<Vec<u8>>> = Vec::new();
    let mut fetch: Vec<FetchEntry> = Vec::new();
    assert(all.take(0) =~= Seq::empty());
    for one in it: located
        invariant
            it.seq() == all,
            blocks@.len() == it.index(),
            forall|i: int|
                0 <= i < it.index() ==> data_of(#[trigger] all[i], blocks@[i], block_size),
            fetch@ == to_fetch(all.take(it.index() as int)),
    {
        let ghost k = it.index();
        let ghost blocks0 = blocks@;
        let idx: usize = blocks.len();
        proof {
            assert(all.take(k + 1).drop_last() =~= all.take(k));
            assert(all.take(k + 1).last() == all[k]);
        }
        match one {
            Located::Data(data) => {
                blocks.push(Some(data));
            },
            Located::Zero => {
                blocks.push(Some(make_zero_block(block_size)));
            },
            Located::NeedsFetch { pack_id, chunk_idx, expected_hash, offset, comp_len } => {
                blocks.push(None);
                fetch.push(
                    FetchEntry { idx, pack_id, chunk_idx, expected_hash, offset, comp_len },
                );
            },
        }
        assert forall|i: int| 0 <= i <= k implies data_of(
            #[trigger] all[i],
            blocks@[i],
            block_size,
        ) by {
            if i < k {
                assert(blocks@[i] == blocks0[i]);
            }
        }
    }
    assert(all.take(all.len() as int) =~= all);
    Partitioned { blocks, fetch }
}

/// The data of the blocks of a read after fetched blocks were filled in. The last
/// data that was fetched for a block counts.
pub open spec fn filled(
    blocks: Seq<Option<Vec<u8>>>,
    fetched: Seq<(usize, Vec<u8>)>,
) -> Seq<Option<Vec<u8>>>
    decreases fetched.len(),
{
    if fetched.len() == 0 {
        blocks
    } else {
        let before = filled(blocks, fetched.drop_last());
        let (idx, data) = fetched.last();
        if idx < before.len() {
            before.update(idx as int, Some(data))
        } else {
            before
        }
    }
}

/// Fills in blocks that were fetched.
pub fn fill_fetched(blocks: &mut Vec<Option<Vec<u8>>>, fetched: Vec<(usize, Vec<u8>)>)
    ensures
        final(blocks)@ == filled(old(blocks)@, fetched@),
{
    let ghost all = fetched@;
    assert(all.take(0) =~= Seq::empty());
    for one in it: fetched
        invariant
            it.seq() == all,
            blocks@ == filled(old(blocks)@, all.take(it.index() as int)),
    {
        let ghost k = it.index();
        proof {
            assert(all.take(k + 1).drop_last() =~= all.take(k));
            assert(all.take(k + 1).last() == all[k]);
        }
        let (idx, data) = one;
        if idx < blocks.len() {
            blocks.set(idx, Some(data));
        }
    }
    assert(all.take(all.len() as int) =~= all);
}

/// Once everything that had to be fetched is filled in, the data of every block is
/// there, and blocks that were there are as they were unless they were fetched.
pub proof fn law_fetching_completes_a_read(
    located: Seq<Located>,
    blocks: Seq<Option<Vec<u8>>>,
    fetched: Seq<(usize, Vec<u8>)>,
    block_size: usize,
)
    requires
        blocks.len() == located.len(),
        located.len() <= usize::MAX,
        forall|i: int|
            0 <= i < located.len() ==> data_of(#[trigger] located[i], blocks[i], block_size),
        forall|e: FetchEntry| #[trigger]
            to_fetch(located).contains(e) ==> exists|k: int|
                0 <= k < fetched.len() && #[trigger] fetched[k].0 == e.idx,
    ensures
        filled(blocks, fetched).len() == blocks.len(),
        forall|i: int| 0 <= i < blocks.len() ==> #[trigger] filled(blocks, fetched)[i] is Some,
        forall|i: int|
            0 <= i < blocks.len() && (forall|k: int|
                0 <= k < fetched.len() ==> #[trigger] fetched[k].0 != i) ==> #[trigger] filled(
                blocks,
                fetched,
            )[i] == blocks[i],
{
    lemma_filled(blocks, fetched);
    assert forall|i: int| 0 <= i < blocks.len() implies #[trigger] filled(
        blocks,
        fetched,
    )[i] is Some by {
        if located[i] is NeedsFetch {
            lemma_to_fetch(located, i);
            let e = choose|e: FetchEntry| to_fetch(located).contains(e) && e.idx == i;
            let k = choose|k: int| 0 <= k < fetched.len() && #[trigger] fetched[k].0 == e.idx;
            assert(fetched[k].0 == i);
        } else {
            assert(data_of(located[i], blocks[i], block_size));
        }
    }
}

proof fn lemma_filled(blocks: Seq<Option<Vec<u8>>>, fetched: Seq<(usize, Vec<u8>)>)
    ensures
        filled(blocks, fetched).len() == blocks.len(),
        forall|i: int|
            0 <= i < blocks.len() && blocks[i] is Some ==> #[trigger] filled(
                blocks,
                fetched,
            )[i] is Some,
        forall|i: int, k: int|
            0 <= i < blocks.len() && 0 <= k < fetched.len() && #[trigger] fetched[k].0 == i
                ==> #[trigger] filled(blocks, fetched)[i] is Some,
        forall|i: int|
            0 <= i < blocks.len() && (forall|k: int|
                0 <= k < fetched.len() ==> #[trigger] fetched[k].0 != i) ==> #[trigger] filled(
                blocks,
                fetched,
            )[i] == blocks[i],
    decreases fetched.len(),
{
    if fetched.len() > 0 {
        let rest = fetched.drop_last();
        lemma_filled(blocks, rest);
        let n = fetched.len() - 1;
        assert(fetched.last() == fetched[n]);
        assert forall|i: int, k: int|
            0 <= i < blocks.len() && 0 <= k < fetched.len() && #[trigger] fetched[k].0
                == i implies #[trigger] filled(blocks, fetched)[i] is Some by {
            if k < n {
                assert(rest[k].0 == i);
                assert(filled(blocks, rest)[i] is Some);
            }
        }
        assert forall|i: int|
            0 <= i < blocks.len() && (forall|k: int|
                0 <= k < fetched.len() ==> #[trigger] fetched[k].0 != i) implies #[trigger] filled(
            blocks,
            fetched,
        )[i] == blocks[i] by {
            assert(fetched[n].0 != i);
            assert forall|k: int| 0 <= k < rest.len() implies #[trigger] rest[k].0 != i by {
                assert(rest[k] == fetched[k]);
            }
            assert(filled(blocks, rest)[i] == blocks[i]);
        }
    }
}

/// A block of a read is what was there, or something that was fetched for it.
pub proof fn lemma_filled_with(
    blocks: Seq<Option<Vec<u8>>>,
    fetched: Seq<(usize, Vec<u8>)>,
    i: int,
)
    requires
        0 <= i < blocks.len(),
    ensures
        filled(blocks, fetched).len() == blocks.len(),
        filled(blocks, fetched)[i] == blocks[i] || exists|k: int|
            0 <= k < fetched.len() && #[trigger] fetched[k].0 == i && filled(blocks, fetched)[i]
                == Some(fetched[k].1),
    decreases fetched.len(),
{
    if fetched.len() > 0 {
        let rest = fetched.drop_last();
        let n = fetched.len() - 1;
        lemma_filled_with(blocks, rest, i);
        if fetched[n].0 != i && filled(blocks, rest)[i] != blocks[i] {
            let k = choose|k: int|
                0 <= k < rest.len() && #[trigger] rest[k].0 == i && filled(blocks, rest)[i]
                    == Some(rest[k].1);
            assert(fetched[k].0 == i);
        }
    }
}

proof fn lemma_to_fetch(located: Seq<Located>, i: int)
    requires
        0 <= i < located.len() <= usize::MAX,
        located[i] is NeedsFetch,
    ensures
        exists|e: FetchEntry| #[trigger] to_fetch(located).contains(e) && e.idx == i,
    decreases located.len(),
{
    let all = to_fetch(located);
    if i == located.len() - 1 {
        let e = all[all.len() - 1];
        assert(all.contains(e) && e.idx == i);
    } else {
        let rest = located.drop_last();
        lemma_to_fetch(rest, i);
        let before = to_fetch(rest);
        let e = choose|e: FetchEntry| #[trigger] before.contains(e) && e.idx == i;
        let j = choose|j: int| 0 <= j < before.len() && before[j] == e;
        assert(all[j] == e);
        assert(all.contains(e));
    }
}

impl WriteCache<Active> {
    /// Decides which blocks a read plan has to resolve: the first and the last, or
    /// none for an empty read.
    pub fn resolve_read_plan(&self, offset: u64, len: usize) -> (result: Result<
        Option<(u64, u64)>,
        CacheError,
    >)
        requires
            self.wf(),
            offset + len <= u64::MAX,
        ensures
            result == (if offset + len > self@.ds() {
                Err::<Option<(u64, u64)>, CacheError>(
                    CacheError::OffsetOutOfBounds((offset + len) as u64, self@.config.device_size),
                )
            } else if len == 0 {
                Ok::<Option<(u64, u64)>, CacheError>(None)
            } else {
                Ok::<Option<(u64, u64)>, CacheError>(
                    Some(
                        (
                            first_block(offset as int, self@.bs()) as u64,
                            last_block(offset as int, len as int, self@.bs()) as u64,
                        ),
                    ),
                )
            }),
    {
        match self.read_local(offset, len) {
            Err(e) => Err(e),
            Ok(None) => Ok(None),
            Ok(Some(_)) => {
                let block_size: u64 = self.inner.config.block_size as u64;
                Ok(Some((offset / block_size, (offset + len as u64 - 1) / block_size)))
            },
        }
    }
}

/// The packs of a chunk without index, oldest first.
pub open spec fn unindexed(packs: Seq<PackView>) -> Seq<PackId>
    decreases packs.len(),
{
    if packs.len() == 0 {
        Seq::empty()
    } else {
        let before = unindexed(packs.drop_last());
        if packs.last().entries is None {
            before.push(packs.last().pack_id)
        } else {
            before
        }
    }
}

/// The packs whose indices to fetch to warm a chunk: those whose indices are not
/// at hand.
pub fn prefetch_chunk(packs: &Vec<PackView>) -> (ids: Vec<PackId>)
    ensures
        ids@ == unindexed(packs@),
{
    let mut ids: Vec<PackId> = Vec::new();
    let mut i: usize = 0;
    assert(packs@.take(0) =~= Seq::empty());
    while i < packs.len()
        invariant
            i <= packs@.len(),
            ids@ == unindexed(packs@.take(i as int)),
        decreases packs@.len() - i,
    {
        proof {
            assert(packs@.take(i + 1).drop_last() =~= packs@.take(i as int));
            assert(packs@.take(i + 1).last() == packs@[i as int]);
        }
        if packs[i].entries.is_none() {
            ids.push(packs[i].pack_id);
        }
        i = i + 1;
    }
    assert(packs@.take(i as int) =~= packs@);
    ids
}

proof fn lemma_to_fetch_exact(located: Seq<Located>)
    requires
        located.len() <= usize::MAX,
    ensures
        forall|k: int|
            0 <= k < to_fetch(located).len() ==> {
                let e = #[trigger] to_fetch(located)[k];
                &&& e.idx < located.len()
                &&& located[e.idx as int] == (Located::NeedsFetch {
                    pack_id: e.pack_id,
                    chunk_idx: e.chunk_idx,
                    expected_hash: e.expected_hash,
                    offset: e.offset,
                    comp_len: e.comp_len,
                })
            },
        forall|j: int, k: int|
            0 <= j < k < to_fetch(located).len() ==> (#[trigger] to_fetch(located)[j]).idx < (
            #[trigger] to_fetch(located)[k]).idx,
        to_fetch(located).len() == located.filter(|l: Located| l is NeedsFetch).len(),
    decreases located.len(),
{
    reveal(Seq::filter);
    if located.len() > 0 {
        let rest = located.drop_last();
        lemma_to_fetch_exact(rest);
        let before = to_fetch(rest);
        let all = to_fetch(located);
        assert forall|k: int| 0 <= k < all.len() implies {
            let e = #[trigger] all[k];
            &&& e.idx < located.len()
            &&& located[e.idx as int] == (Located::NeedsFetch {
                pack_id: e.pack_id,
                chunk_idx: e.chunk_idx,
                expected_hash: e.expected_hash,
                offset: e.offset,
                comp_len: e.comp_len,
            })
        } by {
            if k < before.len() {
                assert(all[k] == before[k]);
                assert(rest[before[k].idx as int] == located[before[k].idx as int]);
            }
        }
        assert forall|j: int, k: int| 0 <= j < k < all.len() implies (#[trigger] all[j]).idx < (
        #[trigger] all[k]).idx by {
            assert(all[j] == before[j]);
            if k < before.len() {
                assert(all[k] == before[k]);
            }
        }
    }
}

/// Of the blocks of a read exactly those are to be fetched that lie in a pack, each once and
/// from where it lies. The others have their data: what was found, or as many zeros as a block
/// has bytes.
pub proof fn law_read_is_parted(located: Vec<Located>, block_size: usize, parts: Partitioned)
    requires
        call_ensures(partition_located, (located, block_size), parts),
    ensures
        parts.blocks@.len() == located@.len(),
        forall|i: int|
            0 <= i < located@.len() ==> match #[trigger] located@[i] {
                Located::Data(data) => parts.blocks@[i] == Some(data),
                Located::Zero => parts.blocks@[i] is Some && parts.blocks@[i]->Some_0@.len()
                    == block_size && forall|j: int|
                    0 <= j < block_size ==> #[trigger] parts.blocks@[i]->Some_0@[j] == 0,
                Located::NeedsFetch { .. } => parts.blocks@[i] is None,
            },
        forall|k: int|
            0 <= k < parts.fetch@.len() ==> {
                let e = #[trigger] parts.fetch@[k];
                &&& e.idx < located@.len()
                &&& located@[e.idx as int] == (Located::NeedsFetch {
                    pack_id: e.pack_id,
                    chunk_idx: e.chunk_idx,
                    expected_hash: e.expected_hash,
                    offset: e.offset,
                    comp_len: e.comp_len,
                })
            },
        forall|j: int, k: int|
            0 <= j < k < parts.fetch@.len() ==> (#[trigger] parts.fetch@[j]).idx < (
            #[trigger] parts.fetch@[k]).idx,
        parts.fetch@.len() == located@.filter(|l: Located| l is NeedsFetch).len(),
{
    assert(located.len() <= usize::MAX);
    lemma_to_fetch_exact(located@);
    assert forall|i: int| 0 <= i < located@.len() implies match #[trigger] located@[i] {
        Located::Data(data) => parts.blocks@[i] == Some(data),
        Located::Zero => parts.blocks@[i] is Some && parts.blocks@[i]->Some_0@.len() == block_size
            && forall|j: int|
            0 <= j < block_size ==> #[trigger] parts.blocks@[i]->Some_0@[j] == 0,
        Located::NeedsFetch { .. } => parts.blocks@[i] is None,
    } by {
        assert(data_of(located@[i], parts.blocks@[i], block_size));
    }
}

proof fn lemma_last_fetch(blocks: Seq<Option<Vec<u8>>>, fetched: Seq<(usize, Vec<u8>)>, k: int)
    requires
        0 <= k < fetched.len(),
        fetched[k].0 < blocks.len(),
        forall|j: int| k < j < fetched.len() ==> (#[trigger] fetched[j]).0 != fetched[k].0,
    ensures
        filled(blocks, fetched).len() == blocks.len(),
        filled(blocks, fetched)[fetched[k].0 as int] == Some(fetched[k].1),
    decreases fetched.len(),
{
    let rest = fetched.drop_last();
    lemma_filled(blocks, rest);
    if k < rest.len() {
        assert(rest[k] == fetched[k]);
        assert forall|j: int| k < j < rest.len() implies (#[trigger] rest[j]).0 != rest[k].0 by {
            assert(rest[j] == fetched[j]);
        }
        lemma_last_fetch(blocks, rest, k);
        assert(fetched[fetched.len() - 1].0 != fetched[k].0);
    }
}

/// Fetched data goes to the block that it was fetched for, the last data for a block counts, and no
/// other block changes.
pub proof fn law_fetched_data_goes_to_its_block(
    blocks: &mut Vec<Option<Vec<u8>>>,
    fetched: Vec<(usize, Vec<u8>)>,
)
    requires
        call_ensures(fill_fetched, (blocks, fetched), ()),
    ensures
        ({
            let before = mut_ref_current(blocks)@;
            let after = mut_ref_future(blocks)@;
            &&& after.len() == before.len()
            &&& forall|k: int|
                0 <= k < fetched@.len() && (#[trigger] fetched@[k]).0 < before.len() && (forall|
                    j: int,
                |
                    k < j < fetched@.len() ==> (#[trigger] fetched@[j]).0 != fetched@[k].0)
                    ==> after[fetched@[k].0 as int] == Some(fetched@[k].1)
            &&& forall|i: int|
                0 <= i < before.len() && (forall|k: int|
                    0 <= k < fetched@.len() ==> (#[trigger] fetched@[k]).0 != i)
                    ==> #[trigger] after[i] == before[i]
        }),
{
    let before = mut_ref_current(blocks)@;
    let after = mut_ref_future(blocks)@;
    lemma_filled(before, fetched@);
    assert forall|k: int|
        0 <= k < fetched@.len() && (#[trigger] fetched@[k]).0 < before.len() && (forall|j: int|
            k < j < fetched@.len() ==> (#[trigger] fetched@[j]).0
                != fetched@[k].0) implies after[fetched@[k].0 as int] == Some(fetched@[k].1) by {
        lemma_last_fetch(before, fetched@, k);
    }
    assert forall|i: int|
        0 <= i < before.len() && (forall|k: int|
            0 <= k < fetched@.len() ==> (#[trigger] fetched@[k]).0 != i) implies #[trigger] after[i]
        == before[i] by {
        assert(filled(before, fetched@)[i] == before[i]);
    }
}

/// A read resolves the blocks that overlap with its range. It is refused exactly if it does not lie
/// on the device, and an empty one needs none.
pub proof fn law_read_resolves_its_blocks(
    cache: WriteCache<Active>,
    offset: u64,
    len: usize,
    result: Result<Option<(u64, u64)>, CacheError>,
    b: int,
)
    requires
        cache.wf(),
        offset + len <= u64::MAX,
        call_ensures(WriteCache::<Active>::resolve_read_plan, (&cache, offset, len), result),
    ensures
        result is Err <==> offset + len > cache.inner.config.device_size,
        result matches Err(e) ==> e is OffsetOutOfBounds,
        result is Ok ==> (result->Ok_0 is None <==> len == 0),
        result is Ok && len > 0 ==> {
            let bs = cache.inner.config.block_size;
            let (first, last) = result->Ok_0->Some_0;
            first <= b <= last <==> b * bs < offset + len && offset < b * bs + bs
        },
{
    if len > 0 && offset + len <= cache@.ds() {
        law_range_touches_blocks(offset as int, len as int, cache@.bs(), b);
        lemma_range_blocks(offset as int, len as int, cache@.bs(), cache@.ds());
        let last = last_block(offset as int, len as int, cache@.bs());
        assert(last <= offset + len - 1) by (nonlinear_arith)
            requires
                last == (offset + len - 1) / cache@.bs(),
                cache@.bs() >= 1,
                offset + len >= 1,
        ;
    }
}

/// To warm a chunk the index of every pack is fetched that is not at hand, the oldest first.
pub proof fn law_missing_indices_are_prefetched(packs: Vec<PackView>, ids: Vec<PackId>)
    requires
        call_ensures(prefetch_chunk, (&packs,), ids),
    ensures
        ids@ == packs@.filter(|p: PackView| p.entries is None).map_values(
            |p: PackView| p.pack_id,
        ),
{
    lemma_unindexed(packs@);
}

proof fn lemma_unindexed(packs: Seq<PackView>)
    ensures
        unindexed(packs) == packs.filter(|p: PackView| p.entries is None).map_values(
            |p: PackView| p.pack_id,
        ),
    decreases packs.len(),
{
    reveal(Seq::filter);
    let f = |p: PackView| p.entries is None;
    let g = |p: PackView| p.pack_id;
    if packs.len() > 0 {
        let rest = packs.drop_last();
        lemma_unindexed(rest);
        if packs.last().entries is None {
            assert(packs.filter(f) =~= rest.filter(f).push(packs.last()));
            assert(packs.filter(f).map_values(g) =~= rest.filter(f).map_values(g).push(
                g(packs.last()),
            ));
        }
    } else {
        assert(unindexed(packs) =~= packs.filter(f).map_values(g));
    }
}

} // verus!
