//! Which blocks of a flush go into which pack.

use std::collections::HashMap;
use vstd::prelude::*;
use crate::write_cache::error::CacheError;
use crate::write_cache::flush::{
    computed_of, has_hash, law_uploads_are_distinct_and_complete, uploads_of, Blake3Hash,
    BlockResult, PackId,
};
use crate::write_cache::locate::{
    answers, entry_for, lemma_answers, lemma_entry_for, newest_entry, told_by, PackIndexEntry,
    PackView,
};
use crate::write_cache::{no_stats, FlushStats};

verus! {

/// The blocks of one chunk.
pub struct ChunkBlocks {
    pub chunk: u32,
    pub blocks: Vec<usize>,
}

/// The blocks of a list that lie in a chunk, in the order of the list.
pub open spec fn blocks_in_chunk(list: Seq<usize>, blocks_per_chunk: int, chunk: int) -> Seq<usize>
    decreases list.len(),
{
    if list.len() == 0 {
        Seq::empty()
    } else {
        let before = blocks_in_chunk(list.drop_last(), blocks_per_chunk, chunk);
        if list.last() as int / blocks_per_chunk == chunk {
            before.push(list.last())
        } else {
            before
        }
    }
}

/// Whether `chunks` splits a list of blocks by chunk: ascending, each chunk once
/// and with all its blocks, and no chunk without blocks.
pub open spec fn partitioned(
    chunks: Seq<ChunkBlocks>,
    list: Seq<usize>,
    blocks_per_chunk: int,
) -> bool {
    &&& forall|i: int, j: int|
        0 <= i < j < chunks.len() ==> (#[trigger] chunks[i]).chunk < (#[trigger] chunks[j]).chunk
    &&& forall|i: int|
        0 <= i < chunks.len() ==> (#[trigger] chunks[i]).blocks@ == blocks_in_chunk(
            list,
            blocks_per_chunk,
            chunks[i].chunk as int,
        ) && chunks[i].blocks@.len() > 0
    &&& forall|k: int|
        0 <= k < list.len() ==> exists|i: int|
            0 <= i < chunks.len() && (#[trigger] chunks[i]).chunk == #[trigger] list[k] as int
                / blocks_per_chunk
}

/// Splits blocks by chunk.
pub fn partition_by_chunk(snapshot: &Vec<usize>, blocks_per_chunk: u32) -> (chunks: Vec<
    ChunkBlocks,
>)
    requires
        blocks_per_chunk > 0,
        forall|k: int|
            0 <= k < snapshot@.len() ==> #[trigger] snapshot@[k] as int / blocks_per_chunk as int
                <= u32::MAX,
    ensures
        partitioned(chunks@, snapshot@, blocks_per_chunk as int),
{
    let mut chunks: Vec<ChunkBlocks> = Vec::new();
    let mut k: usize = 0;
    while k < snapshot.len()
        invariant
            k <= snapshot@.len(),
            blocks_per_chunk > 0,
            forall|k: int|
                0 <= k < snapshot@.len() ==> #[trigger] snapshot@[k] as int
                    / blocks_per_chunk as int <= u32::MAX,
            partitioned(chunks@, snapshot@.take(k as int), blocks_per_chunk as int),
        decreases snapshot@.len() - k,
    {
        let block: usize = snapshot[k];
        let chunk: u32 = (block as u64 / blocks_per_chunk as u64) as u32;
        let ghost before = snapshot@.take(k as int);
        let ghost upto = snapshot@.take(k + 1);
        let ghost chunks0 = chunks@;
        assert(upto.drop_last() =~= before);
        assert(upto.last() == block);
        assert(chunk as int == block as int / blocks_per_chunk as int);
        let mut pos: usize = 0;
        while pos < chunks.len() && chunks[pos].chunk < chunk
            invariant
                pos <= chunks@.len(),
                chunks@ == chunks0,
                forall|i: int| 0 <= i < pos ==> (#[trigger] chunks@[i]).chunk < chunk,
            decreases chunks@.len() - pos,
        {
            pos = pos + 1;
        }
        if pos < chunks.len() && chunks[pos].chunk == chunk {
            let mut at: ChunkBlocks = chunks.remove(pos);
            at.blocks.push(block);
            chunks.insert(pos, at);
            assert(forall|i: int|
                0 <= i < chunks@.len() ==> (#[trigger] chunks@[i]).chunk == chunks0[i].chunk);
            assert(forall|i: int|
                0 <= i < chunks@.len() && i != pos ==> (#[trigger] chunks@[i]) == chunks0[i]);
            proof {
                assert forall|j: int| 0 <= j < upto.len() implies exists|i: int|
                    0 <= i < chunks@.len() && (#[trigger] chunks@[i]).chunk == #[trigger] upto[j] as int
                        / blocks_per_chunk as int by {
                    if j < before.len() {
                        assert(before[j] == upto[j]);
                        let i = choose|i: int|
                            0 <= i < chunks0.len() && (#[trigger] chunks0[i]).chunk
                                == before[j] as int / blocks_per_chunk as int;
                        assert(chunks@[i].chunk == chunks0[i].chunk);
                    } else {
                        assert(chunks@[pos as int].chunk == chunk);
                    }
                }
            }
        } else {
            proof {
                lemma_no_blocks(before, chunks0, blocks_per_chunk as int, chunk as int, pos as int);
            }
            let mut blocks: Vec<usize> = Vec::new();
            blocks.push(block);
            chunks.insert(pos, ChunkBlocks { chunk, blocks });
            assert(chunks@[pos as int].blocks@ =~= blocks_in_chunk(
                upto,
                blocks_per_chunk as int,
                chunk as int,
            ));
            assert(forall|i: int| 0 <= i < pos ==> (#[trigger] chunks@[i]) == chunks0[i]);
            assert(forall|i: int|
                pos < i < chunks@.len() ==> (#[trigger] chunks@[i]) == chunks0[i - 1]);
            proof {
                assert forall|i: int, j: int| 0 <= i < j < chunks@.len() implies (
                #[trigger] chunks@[i]).chunk < (#[trigger] chunks@[j]).chunk by {
                    if j > pos {
                        assert(chunks@[j] == chunks0[j - 1]);
                        assert(chunks0[pos as int].chunk > chunk);
                    }
                    if i > pos {
                        assert(chunks@[i] == chunks0[i - 1]);
                    }
                }
                assert forall|j: int| 0 <= j < upto.len() implies exists|i: int|
                    0 <= i < chunks@.len() && (#[trigger] chunks@[i]).chunk == #[trigger] upto[j] as int
                        / blocks_per_chunk as int by {
                    if j < before.len() {
                        assert(before[j] == upto[j]);
                        let i = choose|i: int|
                            0 <= i < chunks0.len() && (#[trigger] chunks0[i]).chunk
                                == before[j] as int / blocks_per_chunk as int;
                        if i < pos {
                            assert(chunks@[i] == chunks0[i]);
                        } else {
                            assert(chunks@[i + 1] == chunks0[i]);
                        }
                    } else {
                        assert(chunks@[pos as int].chunk == chunk);
                    }
                }
            }
        }
        k = k + 1;
    }
    assert(snapshot@.take(k as int) =~= snapshot@);
    chunks
}

/// A chunk that the partition does not have has no blocks in the list.
proof fn lemma_no_blocks(
    list: Seq<usize>,
    chunks: Seq<ChunkBlocks>,
    blocks_per_chunk: int,
    chunk: int,
    pos: int,
)
    requires
        blocks_per_chunk > 0,
        partitioned(chunks, list, blocks_per_chunk),
        0 <= pos <= chunks.len(),
        forall|i: int| 0 <= i < pos ==> (#[trigger] chunks[i]).chunk < chunk,
        pos < chunks.len() ==> chunks[pos].chunk > chunk,
    ensures
        blocks_in_chunk(list, blocks_per_chunk, chunk) == Seq::<usize>::empty(),
{
    assert forall|k: int| 0 <= k < list.len() implies #[trigger] list[k] as int / blocks_per_chunk
        != chunk by {
        let i = choose|i: int|
            0 <= i < chunks.len() && (#[trigger] chunks[i]).chunk == list[k] as int
                / blocks_per_chunk;
        if i > pos {
            assert(chunks[pos].chunk < chunks[i].chunk);
        }
    }
    lemma_none_in_chunk(list, blocks_per_chunk, chunk);
}

proof fn lemma_none_in_chunk(list: Seq<usize>, blocks_per_chunk: int, chunk: int)
    requires
        forall|k: int|
            0 <= k < list.len() ==> #[trigger] list[k] as int / blocks_per_chunk != chunk,
    ensures
        blocks_in_chunk(list, blocks_per_chunk, chunk) == Seq::<usize>::empty(),
    decreases list.len(),
{
    if list.len() > 0 {
        let before = list.drop_last();
        assert forall|k: int| 0 <= k < before.len() implies #[trigger] before[k] as int
            / blocks_per_chunk != chunk by {
            assert(before[k] == list[k]);
        }
        assert(list[list.len() - 1] as int / blocks_per_chunk != chunk);
        lemma_none_in_chunk(before, blocks_per_chunk, chunk);
    }
}

/// One block of a pack. A zero block has no data: its entry overrides older data
/// at the same place.
pub struct PackBlock {
    pub hash: Blake3Hash,
    pub chunk_offset: u32,
    pub data: Vec<u8>,
}

/// What a `PackBlock` holds.
pub struct PackItem {
    pub hash: Blake3Hash,
    pub chunk_offset: u32,
    pub data: Seq<u8>,
}

impl View for PackBlock {
    type V = PackItem;

    open spec fn view(&self) -> PackItem {
        PackItem { hash: self.hash, chunk_offset: self.chunk_offset, data: self.data@ }
    }
}

/// The blocks of a pack.
pub open spec fn pack_items(blocks: Seq<PackBlock>) -> Seq<PackItem> {
    Seq::new(blocks.len(), |i: int| blocks[i]@)
}

/// What a pack is planned from.
pub struct PackInputs {
    /// Hash of each block that the packs of the chunk have, by place in the
    /// chunk. Unknown unless the index of every pack is at hand.
    pub existing: Option<Map<u32, Blake3Hash>>,
    /// Compressed data by hash.
    pub uploads: Map<Blake3Hash, Vec<u8>>,
    /// Hash of a zero block.
    pub zero_hash: Blake3Hash,
    pub blocks_per_chunk: int,
}

/// What becomes of a block.
pub enum Fate {
    /// The packs of the chunk already say what the block holds.
    Existing,
    /// The block goes into the new pack, with this data.
    Packed(Seq<u8>),
    /// The data of the block is missing: it has to stay dirty.
    Missing,
}

impl PackInputs {
    /// The place of a block in its chunk.
    pub open spec fn place(self, block: usize) -> u32 {
        (block as int % self.blocks_per_chunk) as u32
    }

    /// Whether existing packs make a block redundant: they have the same content
    /// at its place, or it is a zero block and they have nothing there.
    pub open spec fn dominated(self, block: usize, hash: Blake3Hash) -> bool {
        self.existing matches Some(existing) && if existing.contains_key(self.place(block)) {
            existing[self.place(block)] == hash
        } else {
            hash == self.zero_hash
        }
    }

    pub open spec fn fate(self, block: usize, hash: Blake3Hash) -> Fate {
        if self.dominated(block, hash) {
            Fate::Existing
        } else if hash == self.zero_hash {
            Fate::Packed(Seq::empty())
        } else if self.uploads.contains_key(hash) {
            Fate::Packed(self.uploads[hash]@)
        } else {
            Fate::Missing
        }
    }

    /// The blocks of the new pack, in the order of `computed`.
    pub open spec fn items(self, computed: Seq<(usize, Blake3Hash)>) -> Seq<PackItem>
        decreases computed.len(),
    {
        if computed.len() == 0 {
            Seq::empty()
        } else {
            let before = self.items(computed.drop_last());
            let (block, hash) = computed.last();
            match self.fate(block, hash) {
                Fate::Packed(data) => before.push(
                    PackItem { hash, chunk_offset: self.place(block), data },
                ),
                _ => before,
            }
        }
    }

    /// The blocks that can be evicted once the pack is uploaded.
    pub open spec fn flushed(self, computed: Seq<(usize, Blake3Hash)>) -> Seq<usize>
        decreases computed.len(),
    {
        if computed.len() == 0 {
            Seq::empty()
        } else {
            let before = self.flushed(computed.drop_last());
            let (block, hash) = computed.last();
            if self.fate(block, hash) is Missing {
                before
            } else {
                before.push(block)
            }
        }
    }

    /// The blocks that have to become dirty again.
    pub open spec fn missing(self, computed: Seq<(usize, Blake3Hash)>) -> Seq<usize>
        decreases computed.len(),
    {
        if computed.len() == 0 {
            Seq::empty()
        } else {
            let before = self.missing(computed.drop_last());
            let (block, hash) = computed.last();
            if self.fate(block, hash) is Missing {
                before.push(block)
            } else {
                before
            }
        }
    }
}

/// A pack to upload, with what else becomes of the blocks of its chunk.
pub struct PackPlan {
    /// Blocks of the pack. Nothing is uploaded if there are none.
    pub blocks: Vec<PackBlock>,
    /// Blocks that can be evicted once the pack is uploaded.
    pub flushed: Vec<usize>,
    /// Blocks whose data is missing.
    pub missing: Vec<usize>,
    /// How many blocks existing packs make redundant.
    pub cross_deduped: usize,
}

/// Compressed data by hash.
pub fn index_uploads(to_upload: Vec<(Blake3Hash, Vec<u8>)>) -> (uploads: HashMap<
    Blake3Hash,
    Vec<u8>,
>)
    requires
        forall|i: int, j: int|
            0 <= i < j < to_upload@.len() ==> (#[trigger] to_upload@[i]).0 != (
            #[trigger] to_upload@[j]).0,
    ensures
        forall|hash: Blake3Hash| #[trigger]
            uploads@.contains_key(hash) <==> has_hash(to_upload@, hash),
        forall|i: int|
            0 <= i < to_upload@.len() ==> uploads@[(#[trigger] to_upload@[i]).0]
                == to_upload@[i].1,
{
    let ghost all = to_upload@;
    let mut uploads: HashMap<Blake3Hash, Vec<u8>> = HashMap::new();
    for upload in it: to_upload
        invariant
            it.seq() == all,
            forall|i: int, j: int|
                0 <= i < j < all.len() ==> (#[trigger] all[i]).0 != (#[trigger] all[j]).0,
            forall|hash: Blake3Hash| #[trigger]
                uploads@.contains_key(hash) <==> has_hash(all.take(it.index()), hash),
            forall|i: int|
                0 <= i < it.index() ==> uploads@[(#[trigger] all[i]).0] == all[i].1,
    {
        broadcast use vstd::std_specs::hash::group_hash_axioms;

        let ghost k = it.index();
        let ghost uploads0 = uploads@;
        let (hash, data) = upload;
        uploads.insert(hash, data);
        proof {
            assert(all[k] == (hash, data));
            let before = all.take(k);
            let upto = all.take(k + 1);
            assert forall|h: Blake3Hash| #[trigger] uploads@.contains_key(h) <==> has_hash(
                upto,
                h,
            ) by {
                assert(uploads0.contains_key(h) <==> has_hash(before, h));
                if has_hash(before, h) {
                    let i = choose|i: int| 0 <= i < before.len() && (#[trigger] before[i]).0 == h;
                    assert(upto[i].0 == h);
                }
                if h == hash {
                    assert(upto[k].0 == h);
                }
                if has_hash(upto, h) && h != hash {
                    let i = choose|i: int| 0 <= i < upto.len() && (#[trigger] upto[i]).0 == h;
                    assert(before[i].0 == h);
                }
            }
        }
    }
    assert(all.take(all.len() as int) =~= all);
    uploads
}

/// Plans the pack of one chunk: one entry per block, each at its place. Two
/// blocks with the same hash both get an entry, so that reads find both.
pub fn plan_pack(
    computed: &Vec<(usize, Blake3Hash)>,
    existing: Option<&HashMap<u32, Blake3Hash>>,
    uploads: &HashMap<Blake3Hash, Vec<u8>>,
    zero_hash: Blake3Hash,
    blocks_per_chunk: u32,
) -> (plan: PackPlan)
    requires
        blocks_per_chunk > 0,
    ensures
        ({
            let inputs = PackInputs {
                existing: match existing {
                    Some(map) => Some(map@),
                    None => None,
                },
                uploads: uploads@,
                zero_hash,
                blocks_per_chunk: blocks_per_chunk as int,
            };
            &&& pack_items(plan.blocks@) == inputs.items(computed@)
            &&& plan.flushed@ == inputs.flushed(computed@)
            &&& plan.missing@ == inputs.missing(computed@)
            &&& plan.cross_deduped == plan.flushed@.len() - plan.blocks@.len()
        }),
{
    broadcast use vstd::std_specs::hash::group_hash_axioms;

    let ghost inputs = PackInputs {
        existing: match existing {
            Some(map) => Some(map@),
            None => None,
        },
        uploads: uploads@,
        zero_hash,
        blocks_per_chunk: blocks_per_chunk as int,
    };
    let mut blocks: Vec<PackBlock> = Vec::new();
    let mut flushed: Vec<usize> = Vec::new();
    let mut missing: Vec<usize> = Vec::new();
    let mut cross_deduped: usize = 0;
    let mut k: usize = 0;
    while k < computed.len()
        invariant
            k <= computed@.len(),
            blocks_per_chunk > 0,
            inputs == (PackInputs {
                existing: match existing {
                    Some(map) => Some(map@),
                    None => None,
                },
                uploads: uploads@,
                zero_hash,
                blocks_per_chunk: blocks_per_chunk as int,
            }),
            pack_items(blocks@) == inputs.items(computed@.take(k as int)),
            flushed@ == inputs.flushed(computed@.take(k as int)),
            missing@ == inputs.missing(computed@.take(k as int)),
            cross_deduped + blocks@.len() == flushed@.len(),
            flushed@.len() <= k,
        decreases computed@.len() - k,
    {
        broadcast use vstd::std_specs::hash::group_hash_axioms;

        let (block, hash) = computed[k];
        let ghost upto = computed@.take(k + 1);
        let ghost blocks0 = blocks@;
        assert(upto.drop_last() =~= computed@.take(k as int));
        assert(upto.last() == (block, hash));
        let chunk_offset: u32 = (block as u64 % blocks_per_chunk as u64) as u32;
        assert(chunk_offset == inputs.place(block));
        let dominated: bool = match existing {
            Some(map) => match map.get(&chunk_offset) {
                Some(found) => *found == hash,
                None => hash == zero_hash,
            },
            None => false,
        };
        if dominated {
            cross_deduped = cross_deduped + 1;
            flushed.push(block);
        } else {
            let data: Option<Vec<u8>> = if hash == zero_hash {
                Some(Vec::new())
            } else {
                match uploads.get(&hash) {
                    Some(data) => {
                        let copy: Vec<u8> = data.clone();
                        assert(copy@ =~= data@);
                        Some(copy)
                    },
                    None => None,
                }
            };
            match data {
                Some(data) => {
                    blocks.push(PackBlock { hash, chunk_offset, data });
                    flushed.push(block);
                    assert(pack_items(blocks@) =~= pack_items(blocks0).push(
                        PackItem { hash, chunk_offset, data: data@ },
                    ));
                },
                None => {
                    missing.push(block);
                },
            }
        }
        k = k + 1;
    }
    assert(computed@.take(k as int) =~= computed@);
    PackPlan { blocks, flushed, missing, cross_deduped }
}

/// The place of an entry in a pack, if the pack has one.
pub open spec fn in_pack(items: Seq<PackItem>, place: u32, hash: Blake3Hash) -> bool {
    exists|i: int|
        0 <= i < items.len() && (#[trigger] items[i]).chunk_offset == place && items[i].hash == hash
}

/// Every block of a batch is accounted for. One that is not flushed is missing. One
/// that goes into the new pack has its hash there. One that existing packs make
/// redundant has no entry in the new pack, and they have its hash, or have nothing
/// and it is all zeros. The blocks of a chunk have distinct places.
pub proof fn law_flushed_blocks_are_stored(
    inputs: PackInputs,
    computed: Seq<(usize, Blake3Hash)>,
    k: int,
)
    requires
        0 <= k < computed.len(),
        forall|i: int, j: int|
            0 <= i < j < computed.len() ==> inputs.place((#[trigger] computed[i]).0)
                != inputs.place((#[trigger] computed[j]).0),
    ensures
        ({
            let (block, hash) = computed[k];
            let place = inputs.place(block);
            let items = inputs.items(computed);
            &&& !inputs.flushed(computed).contains(block) ==> inputs.missing(computed).contains(
                block,
            )
            &&& inputs.fate(block, hash) is Packed ==> in_pack(items, place, hash)
            &&& inputs.fate(block, hash) is Existing ==> {
                &&& forall|h: Blake3Hash| !#[trigger] in_pack(items, place, h)
                &&& inputs.existing matches Some(existing) && if existing.contains_key(place) {
                    existing[place] == hash
                } else {
                    hash == inputs.zero_hash
                }
            }
        }),
    decreases computed.len(),
{
    let (block, hash) = computed[k];
    let place = inputs.place(block);
    let before = computed.drop_last();
    let items = inputs.items(computed);
    lemma_items_places(inputs, computed);
    if k == computed.len() - 1 {
        let flushed = inputs.flushed(computed);
        let missing = inputs.missing(computed);
        if inputs.fate(block, hash) is Missing {
            assert(missing[missing.len() - 1] == block);
        } else {
            assert(flushed[flushed.len() - 1] == block);
        }
        if inputs.fate(block, hash) is Packed {
            assert(items[items.len() - 1].chunk_offset == place);
        }
    } else {
        assert(before[k] == computed[k]);
        assert forall|i: int, j: int| 0 <= i < j < before.len() implies inputs.place(
            (#[trigger] before[i]).0,
        ) != inputs.place((#[trigger] before[j]).0) by {
            assert(before[i] == computed[i] && before[j] == computed[j]);
        }
        law_flushed_blocks_are_stored(inputs, before, k);
        let items0 = inputs.items(before);
        if in_pack(items0, place, hash) {
            let i = choose|i: int|
                0 <= i < items0.len() && (#[trigger] items0[i]).chunk_offset == place
                    && items0[i].hash == hash;
            assert(items[i] == items0[i]);
        }
        if inputs.flushed(before).contains(block) {
            let i = choose|i: int|
                0 <= i < inputs.flushed(before).len() && inputs.flushed(before)[i] == block;
            assert(inputs.flushed(computed)[i] == block);
        }
        if inputs.missing(before).contains(block) {
            let i = choose|i: int|
                0 <= i < inputs.missing(before).len() && inputs.missing(before)[i] == block;
            assert(inputs.missing(computed)[i] == block);
        }
    }
    if inputs.fate(block, hash) is Existing {
        assert forall|h: Blake3Hash| !#[trigger] in_pack(items, place, h) by {
            if in_pack(items, place, h) {
                let i = choose|i: int|
                    0 <= i < items.len() && (#[trigger] items[i]).chunk_offset == place
                        && items[i].hash == h;
                let j = choose|j: int|
                    0 <= j < computed.len() && inputs.place((#[trigger] computed[j]).0)
                        == items[i].chunk_offset && inputs.fate(
                        computed[j].0,
                        computed[j].1,
                    ) is Packed;
                if j < k {
                    assert(inputs.place(computed[j].0) != inputs.place(computed[k].0));
                } else if k < j {
                    assert(inputs.place(computed[k].0) != inputs.place(computed[j].0));
                }
                assert(false);
            }
        }
    }
}

/// Whether some packed block has the place.
spec fn packed_at(inputs: PackInputs, computed: Seq<(usize, Blake3Hash)>, place: u32) -> bool {
    exists|j: int|
        0 <= j < computed.len() && inputs.place((#[trigger] computed[j]).0) == place
            && inputs.fate(computed[j].0, computed[j].1) is Packed
}

/// Every entry of the pack is that of a packed block.
proof fn lemma_items_places(inputs: PackInputs, computed: Seq<(usize, Blake3Hash)>)
    ensures
        forall|i: int|
            0 <= i < inputs.items(computed).len() ==> packed_at(
                inputs,
                computed,
                (#[trigger] inputs.items(computed)[i]).chunk_offset,
            ),
    decreases computed.len(),
{
    if computed.len() > 0 {
        let before = computed.drop_last();
        lemma_items_places(inputs, before);
        let items = inputs.items(computed);
        let items0 = inputs.items(before);
        assert forall|i: int| 0 <= i < items.len() implies packed_at(
            inputs,
            computed,
            (#[trigger] inputs.items(computed)[i]).chunk_offset,
        ) by {
            if i < items0.len() {
                assert(items[i] == items0[i]);
                let j = choose|j: int|
                    0 <= j < before.len() && inputs.place((#[trigger] before[j]).0)
                        == items0[i].chunk_offset && inputs.fate(
                        before[j].0,
                        before[j].1,
                    ) is Packed;
                assert(computed[j] == before[j]);
            } else {
                let j = computed.len() - 1;
                assert(inputs.place(computed[j].0) == items[i].chunk_offset);
            }
        }
    }
}

/// Whether a pack's index entry is that of a block of the pack.
pub open spec fn is_entry_of(entry: PackIndexEntry, item: PackItem) -> bool {
    entry.chunk_offset == item.chunk_offset && entry.hash == item.hash && entry.comp_length
        == item.data.len()
}

/// Whether an index has an entry for every block of a pack, and no other.
pub open spec fn indexes(entries: Seq<PackIndexEntry>, items: Seq<PackItem>) -> bool {
    &&& forall|i: int|
        0 <= i < items.len() ==> exists|j: int|
            0 <= j < entries.len() && is_entry_of(#[trigger] entries[j], #[trigger] items[i])
    &&& forall|j: int|
        0 <= j < entries.len() ==> exists|i: int|
            0 <= i < items.len() && is_entry_of(#[trigger] entries[j], #[trigger] items[i])
}

/// Whether `existing` has the hash of every block that the packs of a chunk have,
/// and the index of each pack is at hand.
pub open spec fn is_merged(existing: Map<u32, Blake3Hash>, packs: Seq<PackView>) -> bool {
    &&& forall|i: int| 0 <= i < packs.len() ==> (#[trigger] packs[i]).entries is Some
    &&& forall|place: u32| #[trigger]
        existing.contains_key(place) <==> newest_entry(packs, packs.len(), place) is Some
    &&& forall|place: u32|
        existing.contains_key(place) ==> #[trigger] existing[place] == newest_entry(
            packs,
            packs.len(),
            place)->Some_0.hash
}

/// Whether a pack with `blocks` blocks has to be uploaded: not if it has no blocks, nor
/// if the chunk has it already. Packs are named after their content, so the same name
/// means the same bytes.
pub open spec fn must_upload(blocks: nat, pack_ids: Seq<PackId>, pack_id: PackId) -> bool {
    blocks > 0 && !pack_ids.contains(pack_id)
}

/// Whether a pack with `blocks` blocks has to be appended to the packs of its chunk: not
/// if it has no blocks, nor if it is the newest of them already. One that the chunk has
/// further back is listed again, since reads take the newest pack that has a block.
pub open spec fn must_append(blocks: nat, pack_ids: Seq<PackId>, pack_id: PackId) -> bool {
    blocks > 0 && !(pack_ids.len() > 0 && pack_ids.last() == pack_id)
}

/// The ids of packs.
pub open spec fn ids_of(packs: Seq<PackView>) -> Seq<PackId> {
    packs.map_values(|pack: PackView| pack.pack_id)
}

/// The packs of a chunk after a flush that made `pack` of `items`.
pub open spec fn packs_after(
    packs: Seq<PackView>,
    pack: PackView,
    items: Seq<PackItem>,
) -> Seq<PackView> {
    if must_append(items.len(), ids_of(packs), pack.pack_id) {
        packs.push(pack)
    } else {
        packs
    }
}

/// Whether a pack that the chunk has as its newest one under the same name has the
/// same blocks. Packs are named after their content.
pub open spec fn named_by_content(
    packs: Seq<PackView>,
    pack: PackView,
    items: Seq<PackItem>,
) -> bool {
    packs.len() > 0 && packs.last().pack_id == pack.pack_id ==> (packs.last().entries matches Some(
        entries,
    ) && indexes(entries@, items))
}

/// What holds of the pack that a flush makes of `computed`: the packs of the chunk
/// were looked at, its index has its blocks, and it is named after its content.
pub open spec fn is_pack_of(
    inputs: PackInputs,
    computed: Seq<(usize, Blake3Hash)>,
    packs: Seq<PackView>,
    pack: PackView,
) -> bool {
    &&& forall|i: int, j: int|
        0 <= i < j < computed.len() ==> inputs.place((#[trigger] computed[i]).0) != inputs.place(
            (#[trigger] computed[j]).0,
        )
    &&& inputs.existing matches Some(existing) ==> is_merged(existing, packs)
    &&& pack.entries matches Some(entries) && indexes(entries@, inputs.items(computed))
    &&& named_by_content(packs, pack, inputs.items(computed))
}

/// Evicting a block loses nothing: once the flush is done, the newest pack that
/// says something about the place of a flushed block has the hash of the block,
/// or no pack does and the block is all zeros.
pub proof fn law_flushed_blocks_are_found(
    inputs: PackInputs,
    computed: Seq<(usize, Blake3Hash)>,
    packs: Seq<PackView>,
    pack: PackView,
    k: int,
)
    requires
        is_pack_of(inputs, computed, packs, pack),
        0 <= k < computed.len(),
        !(inputs.fate(computed[k].0, computed[k].1) is Missing),
    ensures
        ({
            let (block, hash) = computed[k];
            let after = packs_after(packs, pack, inputs.items(computed));
            match newest_entry(after, after.len(), inputs.place(block)) {
                Some(at) => at.hash == hash,
                None => hash == inputs.zero_hash,
            }
        }),
{
    let (block, hash) = computed[k];
    let place = inputs.place(block);
    let items = inputs.items(computed);
    let after = packs_after(packs, pack, items);
    law_flushed_blocks_are_stored(inputs, computed, k);
    lemma_newest_of_prefix(packs, pack, packs.len(), place);
    if items.len() > 0 {
        let entries = after.last().entries->Some_0@;
        lemma_pack_entry(inputs, computed, entries, k);
        if after.len() == packs.len() {
            assert(ids_of(packs).last() == packs.last().pack_id);
        }
    }
    if inputs.fate(block, hash) is Existing {
        let existing = inputs.existing->Some_0;
        assert(existing.contains_key(place) ==> existing[place] == hash);
    }
}

/// A flush leaves other blocks alone: what was found at the place of a block that
/// is not in the batch is found there still.
pub proof fn law_flush_leaves_other_blocks(
    inputs: PackInputs,
    computed: Seq<(usize, Blake3Hash)>,
    packs: Seq<PackView>,
    pack: PackView,
    other: u32,
)
    requires
        is_pack_of(inputs, computed, packs, pack),
        forall|i: int|
            0 <= i < computed.len() ==> inputs.place((#[trigger] computed[i]).0) != other,
    ensures
        ({
            let after = packs_after(packs, pack, inputs.items(computed));
            newest_entry(after, after.len(), other) == newest_entry(packs, packs.len(), other)
        }),
{
    lemma_newest_of_prefix(packs, pack, packs.len(), other);
    lemma_no_entry(inputs, computed, pack.entries->Some_0@, other);
}

/// An entry of the new pack has data, unless its block is all zeros, and is that of
/// a block of the batch.
pub proof fn lemma_entry_of_pack(
    inputs: PackInputs,
    computed: Seq<(usize, Blake3Hash)>,
    entries: Seq<PackIndexEntry>,
    place: u32,
)
    requires
        forall|i: int, j: int|
            0 <= i < j < computed.len() ==> inputs.place((#[trigger] computed[i]).0)
                != inputs.place((#[trigger] computed[j]).0),
        indexes(entries, inputs.items(computed)),
        forall|hash: Blake3Hash| #[trigger]
            inputs.uploads.contains_key(hash) ==> inputs.uploads[hash]@.len() > 0,
        entry_for(entries, place) is Some,
    ensures
        ({
            let entry = entry_for(entries, place)->Some_0;
            &&& entry.comp_length == 0 <==> entry.hash == inputs.zero_hash
            &&& exists|k: int|
                0 <= k < computed.len() && (#[trigger] computed[k]).1 == entry.hash
        }),
{
    let items = inputs.items(computed);
    let entry = entry_for(entries, place)->Some_0;
    lemma_entry_for(entries, place);
    lemma_items_places(inputs, computed);
    let j = choose|j: int| 0 <= j < entries.len() && (#[trigger] entries[j]) == entry;
    let i = choose|i: int| 0 <= i < items.len() && is_entry_of(entries[j], #[trigger] items[i]);
    assert(packed_at(inputs, computed, items[i].chunk_offset));
    let k = choose|k: int|
        0 <= k < computed.len() && inputs.place((#[trigger] computed[k]).0)
            == items[i].chunk_offset && inputs.fate(computed[k].0, computed[k].1) is Packed;
    lemma_one_item_per_place(inputs, computed, k, i);
    assert(computed[k].1 == entry.hash);
}

/// What the index of the new pack says about the place of a block.
proof fn lemma_pack_entry(
    inputs: PackInputs,
    computed: Seq<(usize, Blake3Hash)>,
    entries: Seq<PackIndexEntry>,
    k: int,
)
    requires
        forall|i: int, j: int|
            0 <= i < j < computed.len() ==> inputs.place((#[trigger] computed[i]).0)
                != inputs.place((#[trigger] computed[j]).0),
        indexes(entries, inputs.items(computed)),
        0 <= k < computed.len(),
    ensures
        match entry_for(entries, inputs.place(computed[k].0)) {
            Some(entry) => entry.hash == computed[k].1 && (inputs.fate(
                computed[k].0,
                computed[k].1,
            ) matches Fate::Packed(data) && entry.comp_length == data.len()),
            None => !(inputs.fate(computed[k].0, computed[k].1) is Packed),
        },
{
    let (block, hash) = computed[k];
    let place = inputs.place(block);
    let items = inputs.items(computed);
    law_flushed_blocks_are_stored(inputs, computed, k);
    lemma_entry_for(entries, place);
    if inputs.fate(block, hash) is Packed {
        let i = choose|i: int|
            0 <= i < items.len() && (#[trigger] items[i]).chunk_offset == place && items[i].hash
                == hash;
        let j = choose|j: int|
            0 <= j < entries.len() && is_entry_of(#[trigger] entries[j], items[i]);
        assert(entries[j].chunk_offset == place);
    }
    if entry_for(entries, place) is Some {
        let found = entry_for(entries, place)->Some_0;
        let j = choose|j: int| 0 <= j < entries.len() && (#[trigger] entries[j]) == found;
        let i = choose|i: int| 0 <= i < items.len() && is_entry_of(entries[j], #[trigger] items[i]);
        lemma_one_item_per_place(inputs, computed, k, i);
    }
}

/// The index of the new pack has nothing at a place that no block has.
proof fn lemma_no_entry(
    inputs: PackInputs,
    computed: Seq<(usize, Blake3Hash)>,
    entries: Seq<PackIndexEntry>,
    other: u32,
)
    requires
        indexes(entries, inputs.items(computed)),
        forall|i: int|
            0 <= i < computed.len() ==> inputs.place((#[trigger] computed[i]).0) != other,
    ensures
        entry_for(entries, other) is None,
{
    let items = inputs.items(computed);
    lemma_items_places(inputs, computed);
    lemma_entry_for(entries, other);
    if entry_for(entries, other) is Some {
        let found = entry_for(entries, other)->Some_0;
        let j = choose|j: int| 0 <= j < entries.len() && (#[trigger] entries[j]) == found;
        let i = choose|i: int| 0 <= i < items.len() && is_entry_of(entries[j], #[trigger] items[i]);
        assert(packed_at(inputs, computed, items[i].chunk_offset));
    }
}

/// Packs that come later do not change what the first `n` packs say.
pub proof fn lemma_newest_of_prefix(packs: Seq<PackView>, pack: PackView, n: nat, place: u32)
    requires
        n <= packs.len(),
    ensures
        newest_entry(packs.push(pack), n, place) == newest_entry(packs, n, place),
    decreases n,
{
    if n > 0 {
        lemma_newest_of_prefix(packs, pack, (n - 1) as nat, place);
    }
}

/// The pack has no other hash at the place of a block than the hash of the block.
proof fn lemma_one_item_per_place(
    inputs: PackInputs,
    computed: Seq<(usize, Blake3Hash)>,
    k: int,
    i: int,
)
    requires
        forall|i: int, j: int|
            0 <= i < j < computed.len() ==> inputs.place((#[trigger] computed[i]).0)
                != inputs.place((#[trigger] computed[j]).0),
        0 <= k < computed.len(),
        0 <= i < inputs.items(computed).len(),
        inputs.items(computed)[i].chunk_offset == inputs.place(computed[k].0),
    ensures
        inputs.items(computed)[i].hash == computed[k].1,
        inputs.fate(computed[k].0, computed[k].1) == Fate::Packed(inputs.items(computed)[i].data),
    decreases computed.len(),
{
    let before = computed.drop_last();
    let items0 = inputs.items(before);
    let last = computed.len() - 1;
    if i < items0.len() {
        assert(inputs.items(computed)[i] == items0[i]);
        lemma_items_places(inputs, before);
        assert(packed_at(inputs, before, items0[i].chunk_offset));
        let j = choose|j: int|
            0 <= j < before.len() && inputs.place((#[trigger] before[j]).0)
                == items0[i].chunk_offset && inputs.fate(before[j].0, before[j].1) is Packed;
        assert(computed[j] == before[j]);
        if j < k {
            assert(inputs.place(computed[j].0) != inputs.place(computed[k].0));
        } else if k < j {
            assert(inputs.place(computed[k].0) != inputs.place(computed[j].0));
        }
        assert forall|a: int, b: int| 0 <= a < b < before.len() implies inputs.place(
            (#[trigger] before[a]).0,
        ) != inputs.place((#[trigger] before[b]).0) by {
            assert(before[a] == computed[a] && before[b] == computed[b]);
        }
        lemma_one_item_per_place(inputs, before, k, i);
    } else {
        assert(inputs.place(computed[last].0) == inputs.place(computed[k].0));
        if k < last {
            assert(inputs.place(computed[k].0) != inputs.place(computed[last].0));
        }
    }
}

/// No block of a batch is ever left without data: where blocks without data have
/// the hash of a zero block, none is missing from the plan.
pub proof fn law_no_data_missing(inputs: PackInputs, results: Seq<BlockResult>)
    requires
        forall|hash: Blake3Hash| #[trigger]
            inputs.uploads.contains_key(hash) <==> has_hash(uploads_of(results), hash),
        forall|i: int|
            0 <= i < results.len() && (#[trigger] results[i] matches BlockResult::Computed {
                compressed: None,
                ..
            }) ==> results[i]->hash == inputs.zero_hash,
    ensures
        inputs.missing(computed_of(results)) == Seq::<usize>::empty(),
{
    law_uploads_are_distinct_and_complete(results);
    lemma_none_missing(inputs, results, results.len());
    assert(results.take(results.len() as int) =~= results);
}

proof fn lemma_none_missing(inputs: PackInputs, results: Seq<BlockResult>, n: nat)
    requires
        n <= results.len(),
        forall|hash: Blake3Hash| #[trigger]
            inputs.uploads.contains_key(hash) <==> has_hash(uploads_of(results), hash),
        forall|i: int|
            0 <= i < results.len() && (#[trigger] results[i] matches BlockResult::Computed {
                compressed: None,
                ..
            }) ==> results[i]->hash == inputs.zero_hash,
        forall|i: int|
            0 <= i < results.len() && (#[trigger] results[i] matches BlockResult::Computed {
                compressed: Some(_),
                ..
            }) ==> has_hash(uploads_of(results), results[i]->hash),
    ensures
        inputs.missing(computed_of(results.take(n as int))) == Seq::<usize>::empty(),
    decreases n,
{
    if n > 0 {
        let m = (n - 1) as nat;
        lemma_none_missing(inputs, results, m);
        let upto = results.take(n as int);
        assert(upto.drop_last() =~= results.take(m as int));
        assert(upto.last() == results[m as int]);
        match results[m as int] {
            BlockResult::Computed { chunk_index, hash, compressed } => {
                let before = computed_of(results.take(m as int));
                assert(computed_of(upto) =~= before.push((chunk_index, hash)));
                assert(computed_of(upto).drop_last() =~= before);
                match compressed {
                    Some(_) => {
                        assert(inputs.uploads.contains_key(hash));
                    },
                    None => {},
                }
            },
            BlockResult::Skipped { .. } => {},
        }
    }
}

/// What a flush has done so far, over the chunks that it went through.
pub struct FlushRun {
    pub stats: FlushStats,
    /// Blocks to evict once everything is uploaded.
    pub flushed: Vec<usize>,
    /// Packs to append to the manifest, by chunk. They are appended together,
    /// and only if every upload succeeded.
    pub staged: Vec<(u32, PackId)>,
}

/// The statistics of a chunk added to a total.
pub open spec fn batch_added(total: FlushStats, batch: FlushStats) -> FlushStats {
    FlushStats {
        blocks_claimed: (total.blocks_claimed + batch.blocks_claimed) as usize,
        blocks_deduped: (total.blocks_deduped + batch.blocks_deduped) as usize,
        blocks_cas_failed: (total.blocks_cas_failed + batch.blocks_cas_failed) as usize,
        blocks_crc_mismatched: (total.blocks_crc_mismatched + batch.blocks_crc_mismatched) as usize,
        ..total
    }
}

/// Whether the statistics of a chunk can be added without overflow.
pub open spec fn batch_fits(total: FlushStats, batch: FlushStats) -> bool {
    &&& total.blocks_claimed + batch.blocks_claimed <= usize::MAX
    &&& total.blocks_deduped + batch.blocks_deduped <= usize::MAX
    &&& total.blocks_cas_failed + batch.blocks_cas_failed <= usize::MAX
    &&& total.blocks_crc_mismatched + batch.blocks_crc_mismatched <= usize::MAX
}

/// The total of compressed lengths.
pub open spec fn total_length(lengths: Seq<u32>) -> nat
    decreases lengths.len(),
{
    if lengths.len() == 0 {
        0
    } else {
        total_length(lengths.drop_last()) + lengths.last() as nat
    }
}

proof fn lemma_total_length(lengths: Seq<u32>, k: int)
    requires
        0 <= k <= lengths.len(),
    ensures
        total_length(lengths.take(k)) <= total_length(lengths),
    decreases lengths.len(),
{
    if k == lengths.len() {
        assert(lengths.take(k) =~= lengths);
    } else {
        assert(lengths.drop_last().take(k) =~= lengths.take(k));
        lemma_total_length(lengths.drop_last(), k);
    }
}

impl FlushRun {
    /// Nothing done yet.
    pub fn new() -> (run: FlushRun)
        ensures
            run.stats == no_stats(),
            run.flushed@ == Seq::<usize>::empty(),
            run.staged@ == Seq::<(u32, PackId)>::empty(),
    {
        FlushRun { stats: FlushStats::default(), flushed: Vec::new(), staged: Vec::new() }
    }

    /// Tests whether the statistics of a chunk can be added without overflow.
    pub fn can_add_batch(&self, batch: &FlushStats) -> (fits: bool)
        ensures
            fits == batch_fits(self.stats, *batch),
    {
        self.stats.blocks_claimed.checked_add(batch.blocks_claimed).is_some()
            && self.stats.blocks_deduped.checked_add(batch.blocks_deduped).is_some()
            && self.stats.blocks_cas_failed.checked_add(batch.blocks_cas_failed).is_some()
            && self.stats.blocks_crc_mismatched.checked_add(batch.blocks_crc_mismatched).is_some()
    }

    /// Adds the statistics of a chunk's compute phase.
    pub fn add_batch(&mut self, batch: &FlushStats)
        requires
            batch_fits(old(self).stats, *batch),
        ensures
            final(self).stats == batch_added(old(self).stats, *batch),
            final(self).flushed == old(self).flushed,
            final(self).staged == old(self).staged,
    {
        self.stats.blocks_claimed = self.stats.blocks_claimed + batch.blocks_claimed;
        self.stats.blocks_deduped = self.stats.blocks_deduped + batch.blocks_deduped;
        self.stats.blocks_cas_failed = self.stats.blocks_cas_failed + batch.blocks_cas_failed;
        self.stats.blocks_crc_mismatched =
        self.stats.blocks_crc_mismatched + batch.blocks_crc_mismatched;
    }

    /// Adds the plan of a chunk: its blocks are evicted with the others.
    pub fn add_plan(&mut self, plan: &PackPlan)
        requires
            old(self).stats.blocks_cross_deduped + plan.cross_deduped <= usize::MAX,
        ensures
            final(self).stats == (FlushStats {
                blocks_cross_deduped: (old(self).stats.blocks_cross_deduped
                    + plan.cross_deduped) as usize,
                ..old(self).stats
            }),
            final(self).flushed@ == old(self).flushed@ + plan.flushed@,
            final(self).staged == old(self).staged,
    {
        self.stats.blocks_cross_deduped = self.stats.blocks_cross_deduped + plan.cross_deduped;
        let mut k: usize = 0;
        while k < plan.flushed.len()
            invariant
                k <= plan.flushed@.len(),
                self.flushed@ == old(self).flushed@ + plan.flushed@.take(k as int),
                self.staged == old(self).staged,
                self.stats == (FlushStats {
                    blocks_cross_deduped: (old(self).stats.blocks_cross_deduped
                        + plan.cross_deduped) as usize,
                    ..old(self).stats
                }),
            decreases plan.flushed@.len() - k,
        {
            self.flushed.push(plan.flushed[k]);
            k = k + 1;
            assert(self.flushed@ =~= old(self).flushed@ + plan.flushed@.take(k as int));
        }
        assert(plan.flushed@.take(k as int) =~= plan.flushed@);
    }

    /// Whether the pack of a chunk has to be uploaded: not if it has no blocks, nor
    /// if the chunk has it already. In the latter case it is counted as skipped, and
    /// staged for the manifest unless it is the newest pack: newer ones may have
    /// overridden it.
    pub fn needs_upload(
        &mut self,
        chunk: u32,
        plan: &PackPlan,
        pack_id: PackId,
        pack_ids: &Vec<PackId>,
    ) -> (upload: bool)
        requires
            old(self).stats.packs_skipped < usize::MAX,
        ensures
            upload == must_upload(plan.blocks@.len(), pack_ids@, pack_id),
            final(self).stats == (if plan.blocks@.len() > 0 && !upload {
                FlushStats {
                    packs_skipped: (old(self).stats.packs_skipped + 1) as usize,
                    ..old(self).stats
                }
            } else {
                old(self).stats
            }),
            final(self).flushed == old(self).flushed,
            final(self).staged@ == (if !upload && must_append(
                plan.blocks@.len(),
                pack_ids@,
                pack_id,
            ) {
                old(self).staged@.push((chunk, pack_id))
            } else {
                old(self).staged@
            }),
    {
        if plan.blocks.len() == 0 {
            return false;
        }
        let mut i: usize = pack_ids.len();
        while i > 0
            invariant
                i <= pack_ids@.len(),
                forall|j: int| i <= j < pack_ids@.len() ==> pack_ids@[j] != pack_id,
                *self == *old(self),
                plan.blocks@.len() > 0,
                self.stats.packs_skipped < usize::MAX,
            decreases i,
        {
            if pack_ids[i - 1] == pack_id {
                self.stats.packs_skipped = self.stats.packs_skipped + 1;
                if i < pack_ids.len() {
                    self.staged.push((chunk, pack_id));
                }
                return false;
            }
            i = i - 1;
        }
        true
    }

    /// Tests whether a pack with the given lengths can be counted without overflow.
    pub fn can_count_upload(&self, lengths: &Vec<u32>) -> (fits: bool)
        ensures
            fits == (self.stats.packs_uploaded < usize::MAX && self.stats.bytes_uploaded
                + total_length(lengths@) <= u64::MAX),
    {
        if self.stats.packs_uploaded == usize::MAX {
            return false;
        }
        let mut bytes: u64 = self.stats.bytes_uploaded;
        let mut k: usize = 0;
        while k < lengths.len()
            invariant
                k <= lengths@.len(),
                bytes == self.stats.bytes_uploaded + total_length(lengths@.take(k as int)),
            decreases lengths@.len() - k,
        {
            proof {
                lemma_total_length(lengths@, k + 1);
                assert(lengths@.take(k + 1).drop_last() =~= lengths@.take(k as int));
            }
            match bytes.checked_add(lengths[k] as u64) {
                Some(sum) => {
                    bytes = sum;
                },
                None => {
                    return false;
                },
            }
            k = k + 1;
        }
        assert(lengths@.take(k as int) =~= lengths@);
        true
    }

    /// A pack was uploaded; `lengths` are the compressed lengths of its blocks.
    /// It is staged for the manifest.
    pub fn uploaded(&mut self, chunk: u32, pack_id: PackId, lengths: &Vec<u32>)
        requires
            old(self).stats.packs_uploaded < usize::MAX,
            old(self).stats.bytes_uploaded + total_length(lengths@) <= u64::MAX,
        ensures
            final(self).stats == (FlushStats {
                packs_uploaded: (old(self).stats.packs_uploaded + 1) as usize,
                bytes_uploaded: (old(self).stats.bytes_uploaded + total_length(lengths@)) as u64,
                ..old(self).stats
            }),
            final(self).flushed == old(self).flushed,
            final(self).staged@ == old(self).staged@.push((chunk, pack_id)),
    {
        self.stats.packs_uploaded = self.stats.packs_uploaded + 1;
        let mut bytes: u64 = self.stats.bytes_uploaded;
        let mut k: usize = 0;
        while k < lengths.len()
            invariant
                k <= lengths@.len(),
                old(self).stats.bytes_uploaded + total_length(lengths@) <= u64::MAX,
                bytes == old(self).stats.bytes_uploaded + total_length(lengths@.take(k as int)),
            decreases lengths@.len() - k,
        {
            proof {
                lemma_total_length(lengths@, k + 1);
                assert(lengths@.take(k + 1).drop_last() =~= lengths@.take(k as int));
            }
            bytes = bytes + lengths[k] as u64;
            k = k + 1;
        }
        assert(lengths@.take(k as int) =~= lengths@);
        self.stats.bytes_uploaded = bytes;
        self.staged.push((chunk, pack_id));
    }

    /// Ends the run. If every chunk went well, all staged packs are appended to the
    /// manifest and the flushed blocks evicted. After a failure nothing is appended,
    /// not even packs that were uploaded already, and nothing is evicted.
    pub fn end(self, outcome: Result<(), CacheError>) -> (end: FlushEnd)
        ensures
            end.appends@ == run_appends(self, outcome is Ok),
            end.evict@ == run_evicts(self, outcome is Ok),
            end.result == match outcome {
                Ok(()) => Ok::<FlushStats, CacheError>(self.stats),
                Err(e) => Err::<FlushStats, CacheError>(e),
            },
    {
        match outcome {
            Ok(()) => FlushEnd {
                appends: self.staged,
                evict: self.flushed,
                result: Ok(self.stats),
            },
            Err(e) => FlushEnd { appends: Vec::new(), evict: Vec::new(), result: Err(e) },
        }
    }
}

/// What is to be done at the end of a flush.
pub struct FlushEnd {
    /// Packs to append to the manifest, by chunk.
    pub appends: Vec<(u32, PackId)>,
    /// Blocks to evict.
    pub evict: Vec<usize>,
    pub result: Result<FlushStats, CacheError>,
}

/// The packs that a run appends to the manifest.
pub open spec fn run_appends(run: FlushRun, ok: bool) -> Seq<(u32, PackId)> {
    if ok {
        run.staged@
    } else {
        Seq::empty()
    }
}

/// The blocks that a run evicts.
pub open spec fn run_evicts(run: FlushRun, ok: bool) -> Seq<usize> {
    if ok {
        run.flushed@
    } else {
        Seq::empty()
    }
}

/// The packs of every chunk, oldest first, after packs were appended.
pub open spec fn packs_appended(
    manifest: Map<u32, Seq<PackId>>,
    appends: Seq<(u32, PackId)>,
) -> Map<u32, Seq<PackId>>
    decreases appends.len(),
{
    if appends.len() == 0 {
        manifest
    } else {
        let before = packs_appended(manifest, appends.drop_last());
        let (chunk, pack_id) = appends.last();
        before.insert(
            chunk,
            if before.contains_key(chunk) {
                before[chunk].push(pack_id)
            } else {
                seq![pack_id]
            },
        )
    }
}

/// The packs that a run appends to a chunk, in order.
pub open spec fn appends_of(appends: Seq<(u32, PackId)>, chunk: u32) -> Seq<PackId>
    decreases appends.len(),
{
    if appends.len() == 0 {
        Seq::empty()
    } else if appends.last().0 == chunk {
        appends_of(appends.drop_last(), chunk).push(appends.last().1)
    } else {
        appends_of(appends.drop_last(), chunk)
    }
}

/// A flush is all or nothing: a failed one leaves the manifest as it was and evicts
/// no block, and one that succeeds appends every pack that it has staged, behind
/// those that were there.
pub proof fn law_flush_is_all_or_nothing(
    run: FlushRun,
    ok: bool,
    manifest: Map<u32, Seq<PackId>>,
    chunk: u32,
)
    ensures
        !ok ==> packs_appended(manifest, run_appends(run, ok)) == manifest && run_evicts(run, ok)
            == Seq::<usize>::empty(),
        ok ==> chunk_packs(packs_appended(manifest, run_appends(run, ok)), chunk) == chunk_packs(
            manifest,
            chunk,
        ) + appends_of(run.staged@, chunk),
{
    lemma_packs_appended(manifest, run.staged@, chunk);
}

/// The packs of a chunk.
pub open spec fn chunk_packs(manifest: Map<u32, Seq<PackId>>, chunk: u32) -> Seq<PackId> {
    if manifest.contains_key(chunk) {
        manifest[chunk]
    } else {
        Seq::empty()
    }
}

proof fn lemma_packs_appended(
    manifest: Map<u32, Seq<PackId>>,
    appends: Seq<(u32, PackId)>,
    chunk: u32,
)
    ensures
        chunk_packs(packs_appended(manifest, appends), chunk) == chunk_packs(manifest, chunk)
            + appends_of(appends, chunk),
    decreases appends.len(),
{
    if appends.len() > 0 {
        let before = packs_appended(manifest, appends.drop_last());
        lemma_packs_appended(manifest, appends.drop_last(), chunk);
        assert(chunk_packs(packs_appended(manifest, appends), chunk) =~= chunk_packs(
            manifest,
            chunk,
        ) + appends_of(appends, chunk));
    } else {
        assert(chunk_packs(manifest, chunk) + appends_of(appends, chunk) =~= chunk_packs(
            manifest,
            chunk,
        ));
    }
}

/// The hash of each block that the packs of a chunk have, if the index of every
/// pack is at hand. The packs are listed oldest first.
pub fn merge_indices(packs: &Vec<PackView>) -> (merged: Option<HashMap<u32, Blake3Hash>>)
    ensures
        merged is Some <==> (forall|i: int|
            0 <= i < packs@.len() ==> (#[trigger] packs@[i]).entries is Some),
        merged matches Some(merged) ==> is_merged(merged@, packs@),
{
    broadcast use vstd::std_specs::hash::group_hash_axioms;

    let mut merged: HashMap<u32, Blake3Hash> = HashMap::new();
    let mut n: usize = 0;
    while n < packs.len()
        invariant
            n <= packs@.len(),
            forall|i: int| 0 <= i < n ==> (#[trigger] packs@[i]).entries is Some,
            holds_newest(merged@, packs@, n as nat),
        decreases packs@.len() - n,
    {
        broadcast use vstd::std_specs::hash::group_hash_axioms;

        let entries: &Vec<PackIndexEntry> = match &packs[n].entries {
            Some(entries) => entries,
            None => {
                assert(packs@[n as int].entries is None);
                return None;
            },
        };
        let ghost before = merged@;
        let mut k: usize = entries.len();
        assert(entries@.skip(k as int) =~= Seq::empty());
        while k > 0
            invariant
                k <= entries@.len(),
                forall|place: u32| #[trigger]
                    merged@.contains_key(place) <==> (entry_for(
                        entries@.skip(k as int),
                        place,
                    ) is Some || before.contains_key(place)),
                forall|place: u32|
                    #![trigger merged@[place]]
                    merged@.contains_key(place) ==> merged@[place] == match entry_for(
                        entries@.skip(k as int),
                        place,
                    ) {
                        Some(entry) => entry.hash,
                        None => before[place],
                    },
            decreases k,
        {
            broadcast use vstd::std_specs::hash::group_hash_axioms;

            let entry: PackIndexEntry = entries[k - 1];
            let _ = merged.insert(entry.chunk_offset, entry.hash);
            proof {
                let rest = entries@.skip(k - 1);
                assert(rest.skip(1) =~= entries@.skip(k as int));
                assert(rest[0] == entry);
            }
            k = k - 1;
        }
        assert(entries@.skip(0) =~= entries@);
        n = n + 1;
    }
    Some(merged)
}

/// Whether a map has the hash of what the first `n` packs say about every place.
spec fn holds_newest(merged: Map<u32, Blake3Hash>, packs: Seq<PackView>, n: nat) -> bool {
    &&& forall|place: u32| #[trigger]
        merged.contains_key(place) <==> newest_entry(packs, n, place) is Some
    &&& forall|place: u32|
        #![trigger merged[place]]
        merged.contains_key(place) ==> merged[place] == newest_entry(packs, n, place)->Some_0.hash
}

proof fn lemma_blocks_in_chunk(list: Seq<usize>, blocks_per_chunk: int, chunk: int)
    ensures
        blocks_in_chunk(list, blocks_per_chunk, chunk) == list.filter(
            |b: usize| b as int / blocks_per_chunk == chunk,
        ),
    decreases list.len(),
{
    reveal(Seq::filter);
    if list.len() > 0 {
        lemma_blocks_in_chunk(list.drop_last(), blocks_per_chunk, chunk);
    }
}

/// Blocks are parted by chunk: each chunk once, in ascending order, with all its blocks in their
/// order and no others. No block is left out, and no chunk is empty.
pub proof fn law_blocks_are_parted_by_chunk(
    snapshot: Vec<usize>,
    blocks_per_chunk: u32,
    chunks: Vec<ChunkBlocks>,
    k: int,
)
    requires
        call_ensures(partition_by_chunk, (&snapshot, blocks_per_chunk), chunks),
    ensures
        forall|i: int, j: int|
            0 <= i < j < chunks@.len() ==> (#[trigger] chunks@[i]).chunk < (
            #[trigger] chunks@[j]).chunk,
        forall|i: int|
            0 <= i < chunks@.len() ==> (#[trigger] chunks@[i]).blocks@.len() > 0
                && chunks@[i].blocks@ == snapshot@.filter(
                |b: usize| b as int / blocks_per_chunk as int == chunks@[i].chunk as int,
            ),
        0 <= k < snapshot@.len() ==> exists|i: int|
            0 <= i < chunks@.len() && (#[trigger] chunks@[i]).chunk == snapshot@[k] as int
                / blocks_per_chunk as int,
{
    assert forall|i: int| 0 <= i < chunks@.len() implies (#[trigger] chunks@[i]).blocks@.len() > 0
        && chunks@[i].blocks@ == snapshot@.filter(
        |b: usize| b as int / blocks_per_chunk as int == chunks@[i].chunk as int,
    ) by {
        lemma_blocks_in_chunk(snapshot@, blocks_per_chunk as int, chunks@[i].chunk as int);
    }
    if 0 <= k < snapshot@.len() {
        let block = snapshot@[k];
        assert(exists|i: int|
            0 <= i < chunks@.len() && (#[trigger] chunks@[i]).chunk == block as int
                / blocks_per_chunk as int);
    }
}

/// Whether the packs of a chunk already say what a block holds.
pub open spec fn is_redundant(inputs: PackInputs, c: (usize, Blake3Hash)) -> bool {
    &&& inputs.existing is Some
    &&& {
        let place = (c.0 as int % inputs.blocks_per_chunk) as u32;
        let known = inputs.existing->Some_0;
        (known.contains_key(place) && known[place] == c.1) || (!known.contains_key(place) && c.1
            == inputs.zero_hash)
    }
}

/// Whether there is no data to store for a block that has to be stored.
pub open spec fn is_lost(inputs: PackInputs, c: (usize, Blake3Hash)) -> bool {
    !is_redundant(inputs, c) && c.1 != inputs.zero_hash && !inputs.uploads.contains_key(c.1)
}

proof fn lemma_plan_is_filter(inputs: PackInputs, computed: Seq<(usize, Blake3Hash)>)
    ensures
        inputs.items(computed) == computed.filter(
            |c: (usize, Blake3Hash)| !is_redundant(inputs, c) && !is_lost(inputs, c),
        ).map_values(
            |c: (usize, Blake3Hash)|
                PackItem {
                    hash: c.1,
                    chunk_offset: (c.0 as int % inputs.blocks_per_chunk) as u32,
                    data: if c.1 == inputs.zero_hash {
                        Seq::empty()
                    } else {
                        inputs.uploads[c.1]@
                    },
                },
        ),
        inputs.flushed(computed) == computed.filter(
            |c: (usize, Blake3Hash)| !is_lost(inputs, c),
        ).map_values(|c: (usize, Blake3Hash)| c.0),
        inputs.missing(computed) == computed.filter(
            |c: (usize, Blake3Hash)| is_lost(inputs, c),
        ).map_values(|c: (usize, Blake3Hash)| c.0),
        inputs.flushed(computed).len() + inputs.missing(computed).len() == computed.len(),
    decreases computed.len(),
{
    reveal(Seq::filter);
    let packed = |c: (usize, Blake3Hash)| !is_redundant(inputs, c) && !is_lost(inputs, c);
    let kept = |c: (usize, Blake3Hash)| !is_lost(inputs, c);
    let lost = |c: (usize, Blake3Hash)| is_lost(inputs, c);
    let item = |c: (usize, Blake3Hash)|
        PackItem {
            hash: c.1,
            chunk_offset: (c.0 as int % inputs.blocks_per_chunk) as u32,
            data: if c.1 == inputs.zero_hash {
                Seq::empty()
            } else {
                inputs.uploads[c.1]@
            },
        };
    let block = |c: (usize, Blake3Hash)| c.0;
    if computed.len() > 0 {
        let rest = computed.drop_last();
        let last = computed.last();
        lemma_plan_is_filter(inputs, rest);
        if packed(last) {
            assert(computed.filter(packed) =~= rest.filter(packed).push(last));
            assert(computed.filter(packed).map_values(item) =~= rest.filter(packed).map_values(
                item,
            ).push(item(last)));
        }
        if kept(last) {
            assert(computed.filter(kept) =~= rest.filter(kept).push(last));
            assert(computed.filter(kept).map_values(block) =~= rest.filter(kept).map_values(
                block,
            ).push(last.0));
        } else {
            assert(computed.filter(lost) =~= rest.filter(lost).push(last));
            assert(computed.filter(lost).map_values(block) =~= rest.filter(lost).map_values(
                block,
            ).push(last.0));
        }
    } else {
        assert(inputs.items(computed) =~= computed.filter(packed).map_values(item));
        assert(inputs.flushed(computed) =~= computed.filter(kept).map_values(block));
        assert(inputs.missing(computed) =~= computed.filter(lost).map_values(block));
    }
}

/// What becomes of the blocks of a chunk. A block goes into the pack, at its place and with the
/// data of its hash, unless the packs of the chunk already say what it holds; one of zeros goes
/// there without data. A block without data to store is missing. All others can be evicted.
pub proof fn law_pack_is_planned(
    computed: Vec<(usize, Blake3Hash)>,
    existing: HashMap<u32, Blake3Hash>,
    is_known: bool,
    uploads: HashMap<Blake3Hash, Vec<u8>>,
    zero_hash: Blake3Hash,
    blocks_per_chunk: u32,
    plan: PackPlan,
)
    requires
        call_ensures(
            plan_pack,
            (
                &computed,
                if is_known {
                    Some(&existing)
                } else {
                    None
                },
                &uploads,
                zero_hash,
                blocks_per_chunk,
            ),
            plan,
        ),
        blocks_per_chunk > 0,
    ensures
        ({
            let inputs = PackInputs {
                existing: if is_known {
                    Some(existing@)
                } else {
                    None
                },
                uploads: uploads@,
                zero_hash,
                blocks_per_chunk: blocks_per_chunk as int,
            };
            &&& pack_items(plan.blocks@) == computed@.filter(
                |c: (usize, Blake3Hash)| !is_redundant(inputs, c) && !is_lost(inputs, c),
            ).map_values(
                |c: (usize, Blake3Hash)|
                    PackItem {
                        hash: c.1,
                        chunk_offset: (c.0 as int % blocks_per_chunk as int) as u32,
                        data: if c.1 == zero_hash {
                            Seq::empty()
                        } else {
                            uploads@[c.1]@
                        },
                    },
            )
            &&& plan.flushed@ == computed@.filter(
                |c: (usize, Blake3Hash)| !is_lost(inputs, c),
            ).map_values(|c: (usize, Blake3Hash)| c.0)
            &&& plan.missing@ == computed@.filter(
                |c: (usize, Blake3Hash)| is_lost(inputs, c),
            ).map_values(|c: (usize, Blake3Hash)| c.0)
            &&& plan.flushed@.len() + plan.missing@.len() == computed@.len()
            &&& plan.cross_deduped + plan.blocks@.len() == plan.flushed@.len()
        }),
{
    let inputs = PackInputs {
        existing: if is_known {
            Some(existing@)
        } else {
            None
        },
        uploads: uploads@,
        zero_hash,
        blocks_per_chunk: blocks_per_chunk as int,
    };
    lemma_plan_is_filter(inputs, computed@);
    let f = |c: (usize, Blake3Hash)|
        PackItem {
            hash: c.1,
            chunk_offset: (c.0 as int % inputs.blocks_per_chunk) as u32,
            data: if c.1 == inputs.zero_hash {
                Seq::empty()
            } else {
                inputs.uploads[c.1]@
            },
        };
    let g = |c: (usize, Blake3Hash)|
        PackItem {
            hash: c.1,
            chunk_offset: (c.0 as int % blocks_per_chunk as int) as u32,
            data: if c.1 == zero_hash {
                Seq::empty()
            } else {
                uploads@[c.1]@
            },
        };
    let packed = computed@.filter(
        |c: (usize, Blake3Hash)| !is_redundant(inputs, c) && !is_lost(inputs, c),
    );
    assert(packed.map_values(f) =~= packed.map_values(g));
}

/// Each hash leads to its own data.
pub proof fn law_uploads_are_indexed(
    to_upload: Vec<(Blake3Hash, Vec<u8>)>,
    uploads: HashMap<Blake3Hash, Vec<u8>>,
)
    requires
        call_ensures(index_uploads, (to_upload,), uploads),
    ensures
        forall|i: int|
            0 <= i < to_upload@.len() ==> uploads@.contains_key((#[trigger] to_upload@[i]).0)
                && uploads@[to_upload@[i].0] == to_upload@[i].1,
        forall|hash: Blake3Hash| #[trigger]
            uploads@.contains_key(hash) ==> exists|i: int|
                0 <= i < to_upload@.len() && (#[trigger] to_upload@[i]).0 == hash,
{
    assert forall|i: int| 0 <= i < to_upload@.len() implies uploads@.contains_key(
        (#[trigger] to_upload@[i]).0,
    ) && uploads@[to_upload@[i].0] == to_upload@[i].1 by {
        assert(has_hash(to_upload@, to_upload@[i].0));
    }
}

/// A pack is uploaded exactly if it has blocks and the chunk does not list it. One that the chunk
/// lists counts as skipped, and is listed again, as the newest, unless it is the newest already.
pub proof fn law_packs_are_uploaded_once(
    run: &mut FlushRun,
    chunk: u32,
    plan: PackPlan,
    pack_id: PackId,
    pack_ids: Vec<PackId>,
    upload: bool,
)
    requires
        call_ensures(FlushRun::needs_upload, (run, chunk, &plan, pack_id, &pack_ids), upload),
        mut_ref_current(run).stats.packs_skipped < usize::MAX,
    ensures
        ({
            let before = mut_ref_current(run);
            let after = mut_ref_future(run);
            let listed = exists|i: int| 0 <= i < pack_ids@.len() && #[trigger] pack_ids@[i] == pack_id;
            let newest = pack_ids@.len() > 0 && pack_ids@[pack_ids@.len() - 1] == pack_id;
            &&& upload <==> plan.blocks@.len() > 0 && !listed
            &&& plan.blocks@.len() > 0 && listed ==> after.stats.packs_skipped
                == before.stats.packs_skipped + 1
            &&& plan.blocks@.len() == 0 || !listed ==> after.stats == before.stats && after.staged@
                == before.staged@
            &&& plan.blocks@.len() > 0 && listed && !newest ==> after.staged@
                == before.staged@.push((chunk, pack_id))
            &&& newest ==> after.staged@ == before.staged@
            &&& after.flushed@ == before.flushed@
            &&& after.stats == (FlushStats {
                packs_skipped: after.stats.packs_skipped,
                ..before.stats
            })
        }),
{
    if pack_ids@.contains(pack_id) {
        let i = choose|i: int| 0 <= i < pack_ids@.len() && pack_ids@[i] == pack_id;
        assert(pack_ids@[i] == pack_id);
    }
}

/// Lengths add up.
pub proof fn law_upload_lengths_add_up(a: Seq<u32>, b: Seq<u32>)
    ensures
        total_length(a + b) == total_length(a) + total_length(b),
        b.len() == 1 ==> total_length(b) == b[0],
    decreases b.len(),
{
    if b.len() == 0 {
        assert(a + b =~= a);
    } else {
        law_upload_lengths_add_up(a, b.drop_last());
        assert((a + b).drop_last() =~= a + b.drop_last());
        assert((a + b).last() == b.last());
        if b.len() == 1 {
            assert(b.drop_last() =~= Seq::empty());
        }
    }
}

/// A flush adds up what it does: the counters of each chunk, the blocks that can be evicted,
/// and the packs that were uploaded with all their bytes, which are to be listed.
pub proof fn law_flush_adds_up(
    computed: &mut FlushRun,
    batch: FlushStats,
    planned: &mut FlushRun,
    plan: PackPlan,
    stored: &mut FlushRun,
    chunk: u32,
    pack_id: PackId,
    lengths: Vec<u32>,
)
    requires
        call_ensures(FlushRun::add_batch, (computed, &batch), ()),
        call_ensures(FlushRun::add_plan, (planned, &plan), ()),
        call_ensures(FlushRun::uploaded, (stored, chunk, pack_id, &lengths), ()),
        mut_ref_current(computed).stats.blocks_claimed + batch.blocks_claimed <= usize::MAX,
        mut_ref_current(computed).stats.blocks_deduped + batch.blocks_deduped <= usize::MAX,
        mut_ref_current(computed).stats.blocks_cas_failed + batch.blocks_cas_failed <= usize::MAX,
        mut_ref_current(computed).stats.blocks_crc_mismatched + batch.blocks_crc_mismatched
            <= usize::MAX,
        mut_ref_current(planned).stats.blocks_cross_deduped + plan.cross_deduped <= usize::MAX,
        mut_ref_current(stored).stats.packs_uploaded < usize::MAX,
        mut_ref_current(stored).stats.bytes_uploaded + total_length(lengths@) <= u64::MAX,
    ensures
        ({
            let a = mut_ref_current(computed);
            let b = mut_ref_future(computed);
            &&& b.stats.blocks_claimed == a.stats.blocks_claimed + batch.blocks_claimed
            &&& b.stats.blocks_deduped == a.stats.blocks_deduped + batch.blocks_deduped
            &&& b.stats.blocks_cas_failed == a.stats.blocks_cas_failed + batch.blocks_cas_failed
            &&& b.stats.blocks_crc_mismatched == a.stats.blocks_crc_mismatched
                + batch.blocks_crc_mismatched
            &&& b.flushed@ == a.flushed@ && b.staged@ == a.staged@
        }),
        ({
            let a = mut_ref_current(planned);
            let b = mut_ref_future(planned);
            &&& b.stats.blocks_cross_deduped == a.stats.blocks_cross_deduped + plan.cross_deduped
            &&& b.flushed@ == a.flushed@ + plan.flushed@
            &&& b.staged@ == a.staged@
        }),
        ({
            let a = mut_ref_current(stored);
            let b = mut_ref_future(stored);
            &&& b.stats.packs_uploaded == a.stats.packs_uploaded + 1
            &&& b.stats.bytes_uploaded == a.stats.bytes_uploaded + total_length(lengths@)
            &&& b.staged@ == a.staged@.push((chunk, pack_id))
            &&& b.flushed@ == a.flushed@
        }),
{
}

/// At the end of a flush that went well, everything that was staged is listed and everything that
/// was flushed is evicted; at the end of one that failed, nothing is.
pub proof fn law_run_ends(run: FlushRun, outcome: Result<(), CacheError>, end: FlushEnd)
    requires
        call_ensures(FlushRun::end, (run, outcome), end),
    ensures
        outcome is Ok ==> end.appends@ == run.staged@ && end.evict@ == run.flushed@
            && end.result == Ok::<FlushStats, CacheError>(run.stats),
        outcome is Err ==> end.appends@.len() == 0 && end.evict@.len() == 0 && end.result is Err,
{
}

/// The packs that are appended to a chunk are those that are listed for it, in their order.
pub proof fn law_appends_of_chunk(appends: Seq<(u32, PackId)>, chunk: u32)
    ensures
        appends_of(appends, chunk) == appends.filter(
            |a: (u32, PackId)| a.0 == chunk,
        ).map_values(|a: (u32, PackId)| a.1),
    decreases appends.len(),
{
    reveal(Seq::filter);
    let f = |a: (u32, PackId)| a.0 == chunk;
    let g = |a: (u32, PackId)| a.1;
    if appends.len() > 0 {
        let rest = appends.drop_last();
        law_appends_of_chunk(rest, chunk);
        if appends.last().0 == chunk {
            assert(appends.filter(f) =~= rest.filter(f).push(appends.last()));
            assert(appends.filter(f).map_values(g) =~= rest.filter(f).map_values(g).push(
                appends.last().1,
            ));
        }
    } else {
        assert(appends_of(appends, chunk) =~= appends.filter(f).map_values(g));
    }
}

/// The merged index of a chunk has the hash of the newest entry at each place, and no other
/// place. It is made only if the index of every pack is at hand.
pub proof fn law_merged_index_is_newest(
    packs: Vec<PackView>,
    merged: Option<HashMap<u32, Blake3Hash>>,
    place: u32,
)
    requires
        call_ensures(merge_indices, (&packs,), merged),
    ensures
        merged is Some <==> forall|i: int|
            0 <= i < packs@.len() ==> (#[trigger] packs@[i]).entries is Some,
        merged is Some ==> {
            let n = packs@.len() as int;
            let known = merged->Some_0@;
            &&& known.contains_key(place) <==> exists|k: int, i: int|
                #[trigger] answers(packs@, n, place, k, i)
            &&& known.contains_key(place) ==> exists|k: int, i: int|
                #[trigger] answers(packs@, n, place, k, i) && known[place]
                    == packs@[k].entries->Some_0@[i].hash
        },
{
    lemma_answers(packs@, packs@.len(), place);
    if merged is Some && merged->Some_0@.contains_key(place) {
        let known = merged->Some_0@;
        let found = newest_entry(packs@, packs@.len(), place)->Some_0;
        assert(known[place] == found.hash);
        let (k, i) = choose|k: int, i: int|
            #[trigger] answers(packs@, packs@.len() as int, place, k, i) && found == told_by(
                packs@,
                k,
                i,
            );
        assert(answers(packs@, packs@.len() as int, place, k, i));
    }
}

/// What a flush can add up without overflow.
pub proof fn law_flush_counters_fit(
    run: FlushRun,
    batch: FlushStats,
    fits: bool,
    lengths: Vec<u32>,
    counts: bool,
    fresh: FlushRun,
)
    requires
        call_ensures(FlushRun::can_add_batch, (&run, &batch), fits),
        call_ensures(FlushRun::can_count_upload, (&run, &lengths), counts),
        call_ensures(FlushRun::new, (), fresh),
    ensures
        fits <==> {
            &&& run.stats.blocks_claimed + batch.blocks_claimed <= usize::MAX
            &&& run.stats.blocks_deduped + batch.blocks_deduped <= usize::MAX
            &&& run.stats.blocks_cas_failed + batch.blocks_cas_failed <= usize::MAX
            &&& run.stats.blocks_crc_mismatched + batch.blocks_crc_mismatched <= usize::MAX
        },
        counts <==> run.stats.packs_uploaded < usize::MAX && run.stats.bytes_uploaded + total_length(
            lengths@,
        ) <= u64::MAX,
        fresh.flushed@.len() == 0 && fresh.staged@.len() == 0 && fresh.stats.blocks_claimed == 0
            && fresh.stats.packs_uploaded == 0 && fresh.stats.bytes_uploaded == 0
            && fresh.stats.blocks_deduped == 0 && fresh.stats.blocks_cas_failed == 0
            && fresh.stats.blocks_crc_mismatched == 0 && fresh.stats.blocks_cross_deduped == 0
            && fresh.stats.packs_skipped == 0,
{
}

} // verus!
