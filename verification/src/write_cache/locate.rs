//! Finding a block in the packs of its chunk, and fetching blocks in few
//! requests.

use vstd::arithmetic::power::pow;
use vstd::prelude::*;
use vstd::slice::slice_subrange;
use crate::text::{
    digits_value, fixed_digits, hex16, law_digits_are_positional, lemma_hex16_value, push_fixed_digits,
};
use crate::write_cache::error::{CacheError, ContentStoreError};
use crate::write_cache::flush::{Blake3Hash, PackId};

verus! {

/// One block of a pack: its place in the chunk and where its compressed data
/// lies. A length of zero stands for a block of zeros.
#[derive(Clone, Copy, Debug, PartialEq, Eq, Structural)]
pub struct PackIndexEntry {
    pub hash: Blake3Hash,
    pub chunk_offset: u32,
    pub offset: u32,
    pub comp_length: u32,
}

/// A pack of a chunk, with its index if that is at hand.
pub struct PackView {
    pub pack_id: PackId,
    pub entries: Option<Vec<PackIndexEntry>>,
}

/// Where the data of a block lies in object storage.
#[derive(Clone, Copy, Debug, PartialEq, Eq, Structural)]
pub struct BlockAt {
    pub pack_id: PackId,
    pub hash: Blake3Hash,
    pub pack_offset: u32,
    pub comp_length: u32,
}

/// Where a block lives.
#[derive(Debug)]
pub enum BlockLocation {
    /// The block is all zeros.
    Zero,
    /// The block has to be fetched, unless the clean cache has its hash.
    Stored(BlockAt),
    /// The indices of these packs are needed first, newest pack first.
    NeedsIndices(Vec<PackId>),
}

/// The first entry at a place of the chunk.
pub open spec fn entry_for(entries: Seq<PackIndexEntry>, place: u32) -> Option<PackIndexEntry>
    decreases entries.len(),
{
    if entries.len() == 0 {
        None
    } else if entries[0].chunk_offset == place {
        Some(entries[0])
    } else {
        entry_for(entries.skip(1), place)
    }
}

/// What the newest of the first `n` packs that says something about a place says
/// about it. Nothing is said where a pack without index comes before: it might have
/// a newer version of the block.
pub open spec fn newest_entry(
    packs: Seq<PackView>,
    n: nat,
    place: u32,
) -> Option<BlockAt>
    decreases n,
{
    if n == 0 {
        None
    } else {
        match packs[n - 1].entries {
            None => None,
            Some(entries) => match entry_for(entries@, place) {
                Some(entry) => Some(
                    BlockAt {
                        pack_id: packs[n - 1].pack_id,
                        hash: entry.hash,
                        pack_offset: entry.offset,
                        comp_length: entry.comp_length,
                    },
                ),
                None => newest_entry(packs, (n - 1) as nat, place),
            },
        }
    }
}

/// The packs without index among the first `n`, newest first.
pub open spec fn packs_without_index(packs: Seq<PackView>, n: nat) -> Seq<PackId>
    decreases n,
{
    if n == 0 {
        Seq::empty()
    } else {
        let older = packs_without_index(packs, (n - 1) as nat);
        if packs[n - 1].entries is None {
            seq![packs[n - 1].pack_id] + older
        } else {
            older
        }
    }
}

/// What an entry says about where a block lives.
pub open spec fn stored_at(found: Option<BlockAt>) -> BlockLocation {
    match found {
        None => BlockLocation::Zero,
        Some(at) => if at.comp_length == 0 {
            BlockLocation::Zero
        } else {
            BlockLocation::Stored(at)
        },
    }
}

fn find_entry(entries: &Vec<PackIndexEntry>, place: u32) -> (found: Option<PackIndexEntry>)
    ensures
        found == entry_for(entries@, place),
{
    let mut i: usize = 0;
    assert(entries@.skip(0) =~= entries@);
    while i < entries.len()
        invariant
            i <= entries@.len(),
            entry_for(entries@, place) == entry_for(entries@.skip(i as int), place),
        decreases entries@.len() - i,
    {
        assert(entries@.skip(i as int).skip(1) =~= entries@.skip(i + 1));
        if entries[i].chunk_offset == place {
            return Some(entries[i]);
        }
        i = i + 1;
    }
    None
}

fn location(found: Option<BlockAt>) -> (at: BlockLocation)
    ensures
        at == stored_at(found),
{
    match found {
        None => BlockLocation::Zero,
        Some(at) => if at.comp_length == 0 {
            BlockLocation::Zero
        } else {
            BlockLocation::Stored(at)
        },
    }
}

/// Finds a block in the packs of its chunk, which are listed oldest first. The
/// newest pack that has the block counts. If a pack without index comes before
/// one is found, all missing indices are asked for.
pub fn locate_block(packs: &Vec<PackView>, place: u32) -> (at: BlockLocation)
    ensures
        if newest_entry(packs@, packs@.len(), place) is Some || packs_without_index(
            packs@,
            packs@.len(),
        ).len() == 0 {
            at == stored_at(newest_entry(packs@, packs@.len(), place))
        } else {
            at matches BlockLocation::NeedsIndices(ids) && ids@ == packs_without_index(
                packs@,
                packs@.len(),
            )
        },
{
    let mut missing: Vec<PackId> = Vec::new();
    let mut n: usize = packs.len();
    while n > 0
        invariant
            n <= packs@.len(),
            missing@ + packs_without_index(packs@, n as nat) == packs_without_index(
                packs@,
                packs@.len(),
            ),
            missing@.len() == 0 ==> newest_entry(packs@, packs@.len(), place) == newest_entry(
                packs@,
                n as nat,
                place),
            missing@.len() > 0 ==> newest_entry(packs@, packs@.len(), place) is None,
        decreases n,
    {
        let pack: &PackView = &packs[n - 1];
        let ghost missing0 = missing@;
        match &pack.entries {
            None => {
                missing.push(pack.pack_id);
                assert(missing@ + packs_without_index(packs@, (n - 1) as nat) =~= missing0
                    + packs_without_index(packs@, n as nat));
            },
            Some(entries) => {
                if missing.len() == 0 {
                    if let Some(entry) = find_entry(entries, place) {
                        return location(
                            Some(
                                BlockAt {
                                    pack_id: pack.pack_id,
                                    hash: entry.hash,
                                    pack_offset: entry.offset,
                                    comp_length: entry.comp_length,
                                },
                            ),
                        );
                    }
                }
            },
        }
        n = n - 1;
    }
    assert(missing@ =~= packs_without_index(packs@, packs@.len()));
    if missing.len() > 0 {
        BlockLocation::NeedsIndices(missing)
    } else {
        BlockLocation::Zero
    }
}

/// Finds a block once the missing indices were fetched. As long as a pack without
/// index might have a newer version of the block, older packs do not answer for it:
/// if an index could not be fetched, that failure is reported, and otherwise the
/// missing indices are asked for again.
pub fn locate_after_fetch(
    packs: &Vec<PackView>,
    place: u32,
    fetch_error: Option<ContentStoreError>,
) -> (result: Result<BlockLocation, CacheError>)
    ensures
        if newest_entry(packs@, packs@.len(), place) is Some || packs_without_index(
            packs@,
            packs@.len(),
        ).len() == 0 {
            result == Ok::<BlockLocation, CacheError>(
                stored_at(newest_entry(packs@, packs@.len(), place)),
            )
        } else {
            match fetch_error {
                Some(e) => result == Err::<BlockLocation, CacheError>(CacheError::ContentStore(e)),
                None => result matches Ok(BlockLocation::NeedsIndices(ids)) && ids@
                    == packs_without_index(packs@, packs@.len()),
            }
        },
{
    match locate_block(packs, place) {
        BlockLocation::NeedsIndices(ids) => match fetch_error {
            Some(e) => Err(CacheError::ContentStore(e)),
            None => Ok(BlockLocation::NeedsIndices(ids)),
        },
        at => Ok(at),
    }
}

/// What is found at a place is an entry there, and none is found only where there
/// is none.
pub proof fn lemma_entry_for(entries: Seq<PackIndexEntry>, place: u32)
    ensures
        match entry_for(entries, place) {
            Some(found) => found.chunk_offset == place && exists|j: int|
                0 <= j < entries.len() && (#[trigger] entries[j]) == found,
            None => forall|j: int|
                0 <= j < entries.len() ==> (#[trigger] entries[j]).chunk_offset != place,
        },
    decreases entries.len(),
{
    if entries.len() > 0 && entries[0].chunk_offset != place {
        let rest = entries.skip(1);
        lemma_entry_for(rest, place);
        match entry_for(rest, place) {
            Some(found) => {
                let j = choose|j: int| 0 <= j < rest.len() && (#[trigger] rest[j]) == found;
                assert(entries[j + 1] == found);
            },
            None => {
                assert forall|j: int| 0 <= j < entries.len() implies (
                #[trigger] entries[j]).chunk_offset != place by {
                    if j > 0 {
                        assert(rest[j - 1] == entries[j]);
                    }
                }
            },
        }
    }
}

/// The newest pack wins: what is found for a block is the entry of a pack such
/// that no newer pack has an entry for it, and no newer pack is without index.
pub proof fn law_newest_pack_wins(packs: Seq<PackView>, n: nat, place: u32)
    requires
        n <= packs.len(),
        newest_entry(packs, n, place) is Some,
    ensures
        exists|k: int|
            0 <= k < n && #[trigger] is_newest(
                packs,
                n,
                place,
                k,
                newest_entry(packs, n, place)->Some_0,
            ),
    decreases n,
{
    let found = newest_entry(packs, n, place)->Some_0;
    let m = (n - 1) as nat;
    if packs[m as int].entries matches Some(entries) && entry_for(entries@, place) is Some {
        assert(is_newest(packs, n, place, m as int, found));
    } else {
        law_newest_pack_wins(packs, m, place);
        let k = choose|k: int|
            0 <= k < m && #[trigger] is_newest(packs, m, place,
                k, found);
        assert(is_newest(packs, n, place,
                k, found));
    }
}

/// Whether `found` is the entry of pack `k`, and no pack from `k + 1` to `n` has
/// one.
pub open spec fn is_newest(
    packs: Seq<PackView>,
    n: nat,
    place: u32,
    k: int,
    found: BlockAt,
) -> bool {
    &&& packs[k].pack_id == found.pack_id
    &&& packs[k].entries matches Some(entries) && (entry_for(entries@, place) matches Some(e)
        && e.hash == found.hash && e.offset == found.pack_offset && e.comp_length
        == found.comp_length)
    &&& forall|j: int|
        k < j < n ==> match (#[trigger] packs[j]).entries {
            Some(entries) => entry_for(entries@, place) is None,
            None => false,
        }
}

/// A block to fetch: the `idx`th of a read.
#[derive(Clone, Copy, Debug, PartialEq, Eq, Structural)]
pub struct FetchEntry {
    pub idx: usize,
    pub pack_id: PackId,
    pub chunk_idx: u32,
    pub expected_hash: Blake3Hash,
    pub offset: u32,
    pub comp_len: u32,
}

/// The blocks to fetch from one pack, by ascending offset.
pub struct FetchGroup {
    pub chunk_idx: u32,
    pub pack_id: PackId,
    pub blocks: Vec<FetchEntry>,
}

/// How the blocks of a group are fetched.
#[derive(Clone, Copy, Debug, PartialEq, Eq, Structural)]
pub enum FetchPlan {
    /// One request per block.
    Individually,
    /// One request for the range that holds all blocks.
    Range { start: u32, len: u32 },
}

/// An entry put into a list that is ordered by offset, behind those with the same
/// offset.
pub open spec fn inserted(sorted: Seq<FetchEntry>, entry: FetchEntry) -> Seq<FetchEntry>
    decreases sorted.len(),
{
    if sorted.len() == 0 || sorted.last().offset <= entry.offset {
        sorted.push(entry)
    } else {
        inserted(sorted.drop_last(), entry).push(sorted.last())
    }
}

/// Whether an entry is of the pack.
pub open spec fn of_pack(entry: FetchEntry, chunk_idx: u32, pack_id: PackId) -> bool {
    entry.chunk_idx == chunk_idx && entry.pack_id == pack_id
}

/// The entries of a pack by ascending offset, those with the same offset in the
/// order of `entries`.
pub open spec fn grouped(entries: Seq<FetchEntry>, chunk_idx: u32, pack_id: PackId) -> Seq<
    FetchEntry,
>
    decreases entries.len(),
{
    if entries.len() == 0 {
        Seq::empty()
    } else {
        let before = grouped(entries.drop_last(), chunk_idx, pack_id);
        if of_pack(entries.last(), chunk_idx, pack_id) {
            inserted(before, entries.last())
        } else {
            before
        }
    }
}

/// Whether some group is of the pack.
pub open spec fn has_group(groups: Seq<FetchGroup>, chunk_idx: u32, pack_id: PackId) -> bool {
    exists|i: int|
        0 <= i < groups.len() && (#[trigger] groups[i]).chunk_idx == chunk_idx && groups[i].pack_id
            == pack_id
}

/// Whether `groups` splits the entries by pack: each pack once, with all its
/// entries by ascending offset, and no pack without entries.
pub open spec fn groups_of(groups: Seq<FetchGroup>, entries: Seq<FetchEntry>) -> bool {
    &&& forall|i: int, j: int|
        0 <= i < j < groups.len() ==> (#[trigger] groups[i]).chunk_idx != (
        #[trigger] groups[j]).chunk_idx || groups[i].pack_id != groups[j].pack_id
    &&& forall|i: int|
        0 <= i < groups.len() ==> (#[trigger] groups[i]).blocks@ == grouped(
            entries,
            groups[i].chunk_idx,
            groups[i].pack_id,
        ) && groups[i].blocks@.len() > 0
    &&& forall|k: int|
        0 <= k < entries.len() ==> has_group(
            groups,
            (#[trigger] entries[k]).chunk_idx,
            entries[k].pack_id,
        )
}

proof fn lemma_inserted_at(sorted: Seq<FetchEntry>, entry: FetchEntry, pos: int)
    requires
        0 <= pos <= sorted.len(),
        forall|i: int| pos <= i < sorted.len() ==> (#[trigger] sorted[i]).offset > entry.offset,
        pos > 0 ==> sorted[pos - 1].offset <= entry.offset,
    ensures
        inserted(sorted, entry) == sorted.insert(pos, entry),
    decreases sorted.len(),
{
    if pos == sorted.len() {
        assert(sorted.insert(pos, entry) =~= sorted.push(entry));
    } else {
        assert(sorted[sorted.len() - 1].offset > entry.offset);
        lemma_inserted_at(sorted.drop_last(), entry, pos);
        assert(sorted.drop_last().insert(pos, entry).push(sorted.last()) =~= sorted.insert(
            pos,
            entry,
        ));
    }
}

fn insert_sorted(sorted: &mut Vec<FetchEntry>, entry: FetchEntry)
    ensures
        final(sorted)@ == inserted(old(sorted)@, entry),
{
    let mut pos: usize = sorted.len();
    while pos > 0 && sorted[pos - 1].offset > entry.offset
        invariant
            pos <= sorted@.len(),
            sorted@ == old(sorted)@,
            forall|i: int|
                pos <= i < sorted@.len() ==> (#[trigger] sorted@[i]).offset > entry.offset,
        decreases pos,
    {
        pos = pos - 1;
    }
    proof {
        lemma_inserted_at(sorted@, entry, pos as int);
    }
    sorted.insert(pos, entry);
}

proof fn lemma_no_group(
    groups: Seq<FetchGroup>,
    entries: Seq<FetchEntry>,
    chunk_idx: u32,
    pack_id: PackId,
)
    requires
        forall|k: int|
            0 <= k < entries.len() ==> has_group(
                groups,
                (#[trigger] entries[k]).chunk_idx,
                entries[k].pack_id,
            ),
        !has_group(groups, chunk_idx, pack_id),
    ensures
        grouped(entries, chunk_idx, pack_id) == Seq::<FetchEntry>::empty(),
    decreases entries.len(),
{
    if entries.len() > 0 {
        let before = entries.drop_last();
        assert forall|k: int| 0 <= k < before.len() implies has_group(
            groups,
            (#[trigger] before[k]).chunk_idx,
            before[k].pack_id,
        ) by {
            assert(before[k] == entries[k]);
        }
        assert(has_group(
            groups,
            entries[entries.len() - 1].chunk_idx,
            entries[entries.len() - 1].pack_id,
        ));
        lemma_no_group(groups, before, chunk_idx, pack_id);
    }
}

/// Groups the blocks to fetch by pack, each group by ascending offset.
pub fn group_fetches(entries: &Vec<FetchEntry>) -> (groups: Vec<FetchGroup>)
    ensures
        groups_of(groups@, entries@),
{
    let mut groups: Vec<FetchGroup> = Vec::new();
    let mut k: usize = 0;
    while k < entries.len()
        invariant
            k <= entries@.len(),
            groups_of(groups@, entries@.take(k as int)),
        decreases entries@.len() - k,
    {
        let entry: FetchEntry = entries[k];
        let ghost before = entries@.take(k as int);
        let ghost upto = entries@.take(k + 1);
        let ghost groups0 = groups@;
        assert(upto.drop_last() =~= before);
        assert(upto.last() == entry);
        let mut pos: usize = 0;
        while pos < groups.len() && !(groups[pos].chunk_idx == entry.chunk_idx
            && groups[pos].pack_id == entry.pack_id)
            invariant
                pos <= groups@.len(),
                groups@ == groups0,
                forall|i: int|
                    0 <= i < pos ==> (#[trigger] groups0[i]).chunk_idx != entry.chunk_idx
                        || groups0[i].pack_id != entry.pack_id,
            decreases groups@.len() - pos,
        {
            pos = pos + 1;
        }
        if pos < groups.len() {
            let mut group: FetchGroup = groups.remove(pos);
            insert_sorted(&mut group.blocks, entry);
            proof {
                lemma_inserted_len(groups0[pos as int].blocks@, entry);
            }
            groups.insert(pos, group);
            assert(groups@.len() == groups0.len());
            assert(forall|i: int|
                0 <= i < groups@.len() && i != pos ==> (#[trigger] groups@[i]) == groups0[i]);
            assert(groups@[pos as int].chunk_idx == groups0[pos as int].chunk_idx
                && groups@[pos as int].pack_id == groups0[pos as int].pack_id);
        } else {
            proof {
                lemma_no_group(groups0, before, entry.chunk_idx, entry.pack_id);
            }
            let mut blocks: Vec<FetchEntry> = Vec::new();
            blocks.push(entry);
            groups.push(
                FetchGroup { chunk_idx: entry.chunk_idx, pack_id: entry.pack_id, blocks },
            );
            assert(inserted(Seq::empty(), entry) =~= seq![entry]);
            assert(groups@[pos as int].blocks@ =~= grouped(upto, entry.chunk_idx, entry.pack_id));
            assert(forall|i: int| 0 <= i < groups0.len() ==> (#[trigger] groups@[i]) == groups0[i]);
        }
        proof {
            assert forall|j: int| 0 <= j < upto.len() implies has_group(
                groups@,
                (#[trigger] upto[j]).chunk_idx,
                upto[j].pack_id,
            ) by {
                if j < before.len() {
                    assert(before[j] == upto[j]);
                    assert(has_group(groups0, before[j].chunk_idx, before[j].pack_id));
                    let i = choose|i: int|
                        0 <= i < groups0.len() && (#[trigger] groups0[i]).chunk_idx
                            == before[j].chunk_idx && groups0[i].pack_id == before[j].pack_id;
                    assert(groups@[i].chunk_idx == groups0[i].chunk_idx);
                } else {
                    assert(groups@[pos as int].chunk_idx == entry.chunk_idx);
                }
            }
        }
        k = k + 1;
    }
    assert(entries@.take(k as int) =~= entries@);
    groups
}

proof fn lemma_inserted_len(sorted: Seq<FetchEntry>, entry: FetchEntry)
    ensures
        inserted(sorted, entry).len() == sorted.len() + 1,
    decreases sorted.len(),
{
    if sorted.len() > 0 && sorted.last().offset > entry.offset {
        lemma_inserted_len(sorted.drop_last(), entry);
    }
}

/// Whether a list is ordered by offset.
pub open spec fn by_offset(list: Seq<FetchEntry>) -> bool {
    forall|i: int, j: int|
        0 <= i < j < list.len() ==> (#[trigger] list[i]).offset <= (#[trigger] list[j]).offset
}

proof fn lemma_inserted(sorted: Seq<FetchEntry>, entry: FetchEntry)
    requires
        by_offset(sorted),
    ensures
        by_offset(inserted(sorted, entry)),
        inserted(sorted, entry).to_multiset() == sorted.to_multiset().insert(entry),
        forall|i: int|
            0 <= i < inserted(sorted, entry).len() ==> (#[trigger] inserted(sorted, entry)[i]).offset
                <= entry.offset || sorted.len() > 0 && inserted(sorted, entry)[i].offset
                <= sorted.last().offset,
    decreases sorted.len(),
{
    broadcast use vstd::seq_lib::group_to_multiset_ensures;

    if sorted.len() > 0 && sorted.last().offset > entry.offset {
        let rest = sorted.drop_last();
        lemma_inserted(rest, entry);
        assert(rest.push(sorted.last()) =~= sorted);
        let mid = inserted(rest, entry);
        assert forall|i: int| 0 <= i < mid.len() implies (#[trigger] mid[i]).offset
            <= sorted.last().offset by {
            if rest.len() > 0 {
                assert(rest.last() == sorted[rest.len() - 1]);
                assert(sorted.last() == sorted[sorted.len() - 1]);
            }
        }
        assert(inserted(sorted, entry).to_multiset() =~= sorted.to_multiset().insert(entry));
    } else if sorted.len() > 0 {
        assert forall|i: int| 0 <= i < sorted.len() implies (#[trigger] sorted[i]).offset
            <= entry.offset by {
            assert(sorted.last() == sorted[sorted.len() - 1]);
        }
    }
}

/// A group is ordered by offset and has exactly the entries of its pack.
pub proof fn law_groups_are_ordered_and_complete(
    entries: Seq<FetchEntry>,
    chunk_idx: u32,
    pack_id: PackId,
)
    ensures
        by_offset(grouped(entries, chunk_idx, pack_id)),
        grouped(entries, chunk_idx, pack_id).to_multiset() == entries.filter(
            |e: FetchEntry| of_pack(e, chunk_idx, pack_id),
        ).to_multiset(),
    decreases entries.len(),
{
    broadcast use vstd::seq_lib::group_to_multiset_ensures;

    reveal(Seq::filter);
    if entries.len() > 0 {
        let before = entries.drop_last();
        law_groups_are_ordered_and_complete(before, chunk_idx, pack_id);
        lemma_inserted(grouped(before, chunk_idx, pack_id), entries.last());
    }
}

/// The total of the compressed lengths.
pub open spec fn total_comp(blocks: Seq<FetchEntry>) -> nat
    decreases blocks.len(),
{
    if blocks.len() == 0 {
        0
    } else {
        total_comp(blocks.drop_last()) + blocks.last().comp_len as nat
    }
}

pub proof fn lemma_total_comp(blocks: Seq<FetchEntry>, k: int)
    requires
        0 <= k <= blocks.len(),
    ensures
        total_comp(blocks.take(k)) <= total_comp(blocks),
    decreases blocks.len(),
{
    if k == blocks.len() {
        assert(blocks.take(k) =~= blocks);
    } else {
        assert(blocks.drop_last().take(k) =~= blocks.take(k));
        lemma_total_comp(blocks.drop_last(), k);
    }
}

/// The bytes from the first block of a group to the end of its last.
pub open spec fn span(blocks: Seq<FetchEntry>) -> int {
    blocks.last().offset + blocks.last().comp_len - blocks[0].offset
}

/// How the blocks of a group are fetched: with one request, unless there is but one
/// block, or the gaps between them are larger than the blocks.
pub open spec fn plan_of(blocks: Seq<FetchEntry>) -> FetchPlan {
    if blocks.len() == 1 || span(blocks) - total_comp(blocks) > total_comp(blocks) {
        FetchPlan::Individually
    } else {
        FetchPlan::Range { start: blocks[0].offset, len: span(blocks) as u32 }
    }
}

/// Decides how the blocks of a group are fetched.
pub fn plan_group(blocks: &Vec<FetchEntry>) -> (plan: FetchPlan)
    requires
        blocks@.len() > 0,
        blocks@.last().offset + blocks@.last().comp_len <= u32::MAX,
        total_comp(blocks@) <= span(blocks@),
    ensures
        plan == plan_of(blocks@),
{
    let n: usize = blocks.len();
    let start: u32 = blocks[0].offset;
    let end: u32 = blocks[n - 1].offset + blocks[n - 1].comp_len;
    let mut total: u64 = 0;
    let mut k: usize = 0;
    while k < n
        invariant
            n == blocks@.len(),
            k <= n,
            total_comp(blocks@) <= u32::MAX,
            total == total_comp(blocks@.take(k as int)),
        decreases n - k,
    {
        proof {
            lemma_total_comp(blocks@, k + 1);
            assert(blocks@.take(k + 1).drop_last() =~= blocks@.take(k as int));
        }
        total = total + blocks[k].comp_len as u64;
        k = k + 1;
    }
    assert(blocks@.take(k as int) =~= blocks@);
    let len: u32 = end - start;
    let gap: u64 = len as u64 - total;
    if n == 1 || gap > total {
        FetchPlan::Individually
    } else {
        FetchPlan::Range { start, len }
    }
}

/// Whether a block lies in the `len` bytes from `start` on.
pub open spec fn in_range(block: FetchEntry, start: u32, len: int) -> bool {
    start <= block.offset && block.offset - start + block.comp_len <= len
}

/// Splits the bytes of one request into the compressed blocks.
pub fn split_range(blocks: &Vec<FetchEntry>, start: u32, data: &Vec<u8>) -> (parts: Vec<Vec<u8>>)
    requires
        forall|k: int|
            0 <= k < blocks@.len() ==> in_range(#[trigger] blocks@[k], start, data@.len() as int),
    ensures
        parts@.len() == blocks@.len(),
        forall|k: int|
            0 <= k < blocks@.len() ==> (#[trigger] parts@[k])@ == data@.subrange(
                blocks@[k].offset - start,
                blocks@[k].offset - start + blocks@[k].comp_len,
            ),
{
    let mut parts: Vec<Vec<u8>> = Vec::new();
    let len: usize = data.len();
    let mut k: usize = 0;
    while k < blocks.len()
        invariant
            k <= blocks@.len(),
            len == data@.len(),
            forall|k: int|
                0 <= k < blocks@.len() ==> in_range(
                    #[trigger] blocks@[k],
                    start,
                    data@.len() as int,
                ),
            parts@.len() == k,
            forall|j: int|
                0 <= j < k ==> (#[trigger] parts@[j])@ == data@.subrange(
                    blocks@[j].offset - start,
                    blocks@[j].offset - start + blocks@[j].comp_len,
                ),
        decreases blocks@.len() - k,
    {
        let block: FetchEntry = blocks[k];
        assert(in_range(blocks@[k as int], start, data@.len() as int));
        let from: usize = (block.offset - start) as usize;
        let to: usize = from + block.comp_len as usize;
        let mut part: Vec<u8> = Vec::new();
        part.extend_from_slice(slice_subrange(data.as_slice(), from, to));
        assert(part@ =~= data@.subrange(from as int, to as int));
        parts.push(part);
        k = k + 1;
    }
    parts
}

/// One request gives the same bytes as many: a block cut out of a range of a pack
/// is the block that a request for it alone returns.
pub proof fn law_range_fetch_equals_single_fetch(
    pack: Seq<u8>,
    block: FetchEntry,
    start: u32,
    len: int,
)
    requires
        0 <= len,
        start + len <= pack.len(),
        in_range(block, start, len),
    ensures
        pack.subrange(start as int, start + len).subrange(
            block.offset - start,
            block.offset - start + block.comp_len,
        ) == pack.subrange(block.offset as int, block.offset + block.comp_len),
{
    assert(pack.subrange(start as int, start + len).subrange(
        block.offset - start,
        block.offset - start + block.comp_len,
    ) =~= pack.subrange(block.offset as int, block.offset + block.comp_len));
}

/// The text of a hash.
pub open spec fn hash_text(hash: Blake3Hash) -> Seq<char> {
    fixed_digits(hash as int / 0x1_0000_0000_0000_0000, 16, 16) + fixed_digits(
        hash as int % 0x1_0000_0000_0000_0000,
        16,
        16,
    )
}

fn show_hash(hash: Blake3Hash) -> (text: String)
    ensures
        text@ == hash_text(hash),
{
    let mut text = String::new();
    push_fixed_digits(&mut text, (hash / 0x1_0000_0000_0000_0000) as u64, 16, 16);
    push_fixed_digits(&mut text, (hash % 0x1_0000_0000_0000_0000) as u64, 16, 16);
    text
}

/// Compares the hash of fetched data with the one that the pack index has.
pub fn verify_block_hash(expected: Blake3Hash, actual: Blake3Hash) -> (result: Result<
    (),
    CacheError,
>)
    ensures
        match result {
            Ok(()) => expected == actual,
            Err(e) => expected != actual && (e matches CacheError::HashMismatch {
                expected: wanted,
                actual: got,
            } && wanted@ == hash_text(expected) && got@ == hash_text(actual)),
        },
{
    if actual != expected {
        return Err(
            CacheError::HashMismatch { expected: show_hash(expected), actual: show_hash(actual) },
        );
    }
    Ok(())
}

/// Whether entry `i` of pack `k` answers for a place: it is the first of its pack at the place,
/// and every later pack has its index at hand and no entry there.
pub open spec fn answers(packs: Seq<PackView>, n: int, place: u32, k: int, i: int) -> bool {
    &&& 0 <= k < n
    &&& packs[k].entries is Some
    &&& 0 <= i < packs[k].entries->Some_0@.len()
    &&& packs[k].entries->Some_0@[i].chunk_offset == place
    &&& forall|j: int|
        0 <= j < i ==> (#[trigger] packs[k].entries->Some_0@[j]).chunk_offset != place
    &&& forall|q: int| k < q < n ==> (#[trigger] packs[q]).entries is Some
    &&& forall|q: int, j: int|
        k < q < n && 0 <= j < packs[q].entries->Some_0@.len() ==> (
        #[trigger] packs[q].entries->Some_0@[j]).chunk_offset != place
}

proof fn lemma_first_entry(entries: Seq<PackIndexEntry>, place: u32)
    ensures
        match entry_for(entries, place) {
            Some(found) => exists|i: int|
                0 <= i < entries.len() && (#[trigger] entries[i]) == found && found.chunk_offset
                    == place && forall|j: int|
                    0 <= j < i ==> (#[trigger] entries[j]).chunk_offset != place,
            None => forall|j: int|
                0 <= j < entries.len() ==> (#[trigger] entries[j]).chunk_offset != place,
        },
    decreases entries.len(),
{
    lemma_entry_for(entries, place);
    if entries.len() > 0 {
        if entries[0].chunk_offset == place {
            assert(entries[0] == entry_for(entries, place)->Some_0);
        } else {
            let rest = entries.skip(1);
            lemma_first_entry(rest, place);
            if let Some(found) = entry_for(rest, place) {
                let i = choose|i: int|
                    0 <= i < rest.len() && (#[trigger] rest[i]) == found && forall|j: int|
                        0 <= j < i ==> (#[trigger] rest[j]).chunk_offset != place;
                assert(entries[i + 1] == found);
                assert forall|j: int| 0 <= j < i + 1 implies (#[trigger] entries[j]).chunk_offset
                    != place by {
                    if j > 0 {
                        assert(rest[j - 1] == entries[j]);
                    }
                }
            }
        }
    }
}

/// The place in an answer, where there is one.
pub open spec fn told_by(packs: Seq<PackView>, k: int, i: int) -> BlockAt {
    let e = packs[k].entries->Some_0@[i];
    BlockAt {
        pack_id: packs[k].pack_id,
        hash: e.hash,
        pack_offset: e.offset,
        comp_length: e.comp_length,
    }
}

pub(crate) proof fn lemma_answers(packs: Seq<PackView>, n: nat, place: u32)
    requires
        n <= packs.len(),
    ensures
        newest_entry(packs, n, place) matches Some(found) ==> exists|k: int, i: int|
            #[trigger] answers(packs, n as int, place, k, i) && found == told_by(packs, k, i),
        newest_entry(packs, n, place) is None ==> forall|k: int, i: int|
            !#[trigger] answers(packs, n as int, place, k, i),
    decreases n,
{
    if n > 0 {
        let m = (n - 1) as nat;
        lemma_answers(packs, m, place);
        if let Some(entries) = packs[m as int].entries {
            lemma_first_entry(entries@, place);
            match entry_for(entries@, place) {
                Some(found) => {
                    let i = choose|i: int|
                        0 <= i < entries@.len() && (#[trigger] entries@[i]) == found
                            && forall|j: int|
                            0 <= j < i ==> (#[trigger] entries@[j]).chunk_offset != place;
                    assert(answers(packs, n as int, place, m as int, i));
                },
                None => {
                    if newest_entry(packs, m, place) is Some {
                        let (k, i) = choose|k: int, i: int|
                            #[trigger] answers(packs, m as int, place, k, i) && newest_entry(
                                packs,
                                m,
                                place,
                            )->Some_0 == told_by(packs, k, i);
                        assert(answers(packs, n as int, place, k, i));
                    } else {
                        assert forall|k: int, i: int| !#[trigger] answers(
                            packs,
                            n as int,
                            place,
                            k,
                            i,
                        ) by {
                            if answers(packs, n as int, place, k, i) {
                                if k < m {
                                    assert(answers(packs, m as int, place, k, i));
                                } else {
                                    assert(entries@[i].chunk_offset == place);
                                }
                            }
                        }
                    }
                },
            }
        } else {
            assert forall|k: int, i: int| !#[trigger] answers(packs, n as int, place, k, i) by {
                if answers(packs, n as int, place, k, i) {
                    if k < m {
                        assert(packs[m as int].entries is Some);
                    }
                }
            }
        }
    }
}

proof fn lemma_missing(packs: Seq<PackView>, n: nat)
    requires
        n <= packs.len(),
    ensures
        packs_without_index(packs, n) == packs.take(n as int).reverse().filter(
            |p: PackView| p.entries is None,
        ).map_values(|p: PackView| p.pack_id),
        packs_without_index(packs, n).len() == 0 <==> forall|k: int|
            0 <= k < n ==> (#[trigger] packs[k]).entries is Some,
    decreases n,
{
    let f = |p: PackView| p.entries is None;
    let g = |p: PackView| p.pack_id;
    reveal(Seq::filter);
    if n > 0 {
        lemma_missing(packs, (n - 1) as nat);
        let last = packs[n - 1];
        let older = packs.take(n - 1).reverse();
        let all = packs.take(n as int).reverse();
        assert(all =~= seq![last] + older);
        lemma_filter_concat(seq![last], older, f);
        let one = seq![last];
        assert(one.drop_last() =~= Seq::empty());
        assert(one.drop_last().filter(f) =~= Seq::empty());
        assert(one.last() == last);
        assert(one.filter(f) =~= if f(last) {
            seq![last]
        } else {
            Seq::empty()
        });
        assert(all.filter(f).map_values(g) =~= one.filter(f).map_values(g) + older.filter(
            f,
        ).map_values(g));
        if f(last) {
            assert(one.filter(f).map_values(g) =~= seq![last.pack_id]);
        } else {
            assert(one.filter(f).map_values(g) =~= Seq::empty());
            assert(all.filter(f).map_values(g) =~= older.filter(f).map_values(g));
        }
        if packs_without_index(packs, n).len() == 0 {
            assert(last.entries is Some);
        }
    } else {
        assert(packs.take(0).reverse() =~= Seq::empty());
        assert(packs.take(0).reverse().filter(f).map_values(g) =~= Seq::empty());
    }
}

proof fn lemma_filter_concat<A>(a: Seq<A>, b: Seq<A>, f: spec_fn(A) -> bool)
    ensures
        (a + b).filter(f) == a.filter(f) + b.filter(f),
    decreases b.len(),
{
    reveal(Seq::filter);
    if b.len() == 0 {
        assert(a + b =~= a);
        assert(a.filter(f) + b.filter(f) =~= a.filter(f));
    } else {
        lemma_filter_concat(a, b.drop_last(), f);
        assert((a + b).drop_last() =~= a + b.drop_last());
        assert((a + b).last() == b.last());
        assert((a + b).filter(f) =~= a.filter(f) + b.filter(f));
    }
}

/// Where a block is: in the entry that answers for its place, if that has data, and all zeros, if
/// it has none. Where no entry answers, it is all zeros if the index of every pack is at hand, and
/// otherwise the packs without index have to be asked, the newest first.
pub proof fn law_block_is_located(packs: Vec<PackView>, place: u32, at: BlockLocation)
    requires
        call_ensures(locate_block, (&packs, place), at),
    ensures
        ({
            let n = packs@.len() as int;
            let answered = exists|k: int, i: int| answers(packs@, n, place, k, i);
            let all_known = forall|k: int| 0 <= k < n ==> (#[trigger] packs@[k]).entries is Some;
            &&& at matches BlockLocation::Stored(b) ==> b.comp_length > 0 && exists|
                k: int,
                i: int,
            |
                #[trigger] answers(packs@, n, place, k, i) && b.pack_id == packs@[k].pack_id
                    && b.hash == packs@[k].entries->Some_0@[i].hash && b.pack_offset
                    == packs@[k].entries->Some_0@[i].offset && b.comp_length
                    == packs@[k].entries->Some_0@[i].comp_length
            &&& at is Zero && answered ==> exists|k: int, i: int|
                #[trigger] answers(packs@, n, place, k, i)
                    && packs@[k].entries->Some_0@[i].comp_length == 0
            &&& at is NeedsIndices <==> !answered && !all_known
            &&& at is Stored ==> answered
            &&& at is Zero && !answered ==> all_known
            &&& at matches BlockLocation::NeedsIndices(ids) ==> ids@
                == packs@.reverse().filter(|p: PackView| p.entries is None).map_values(
                |p: PackView| p.pack_id,
            )
        }),
{
    let n = packs@.len();
    lemma_answers(packs@, n, place);
    lemma_missing(packs@, n);
    assert(packs@.take(n as int) =~= packs@);
    if let Some(found) = newest_entry(packs@, n, place) {
        let (k, i) = choose|k: int, i: int|
            #[trigger] answers(packs@, n as int, place, k, i) && found == told_by(packs@, k, i);
        assert(answers(packs@, n as int, place, k, i));
    }
}

/// After the missing indices were fetched a block is located as before. If it still cannot be, the
/// failure to fetch an index is reported; a block is never taken from an older pack instead.
pub proof fn law_located_after_fetch(
    packs: Vec<PackView>,
    place: u32,
    fetch_error: Option<ContentStoreError>,
    result: Result<BlockLocation, CacheError>,
    at: BlockLocation,
)
    requires
        call_ensures(locate_after_fetch, (&packs, place, fetch_error), result),
        call_ensures(locate_block, (&packs, place), at),
    ensures
        result is Err <==> at is NeedsIndices && fetch_error is Some,
        result matches Err(e) ==> e == CacheError::ContentStore(fetch_error->Some_0),
        result is Ok && !(at is NeedsIndices) ==> result->Ok_0 == at,
        result is Ok && at is NeedsIndices ==> result->Ok_0 is NeedsIndices
            && result->Ok_0->NeedsIndices_0@ == at->NeedsIndices_0@,
{
}

/// The blocks to fetch are grouped by pack: each pack once, with all its blocks and no others, by
/// ascending offset.
pub proof fn law_fetches_are_grouped(entries: Vec<FetchEntry>, groups: Vec<FetchGroup>, k: int)
    requires
        call_ensures(group_fetches, (&entries,), groups),
    ensures
        forall|i: int, j: int|
            0 <= i < j < groups@.len() ==> (#[trigger] groups@[i]).chunk_idx != (
            #[trigger] groups@[j]).chunk_idx || groups@[i].pack_id != groups@[j].pack_id,
        forall|g: int|
            0 <= g < groups@.len() ==> {
                let group = #[trigger] groups@[g];
                &&& group.blocks@.len() > 0
                &&& group.blocks@.to_multiset() == entries@.filter(
                    |e: FetchEntry|
                        e.chunk_idx == group.chunk_idx && e.pack_id == group.pack_id,
                ).to_multiset()
                &&& forall|i: int, j: int|
                    0 <= i < j < group.blocks@.len() ==> (#[trigger] group.blocks@[i]).offset <= (
                    #[trigger] group.blocks@[j]).offset
            },
        0 <= k < entries@.len() ==> exists|g: int|
            0 <= g < groups@.len() && (#[trigger] groups@[g]).chunk_idx == entries@[k].chunk_idx
                && groups@[g].pack_id == entries@[k].pack_id,
{
    assert forall|g: int| 0 <= g < groups@.len() implies {
        let group = #[trigger] groups@[g];
        &&& group.blocks@.len() > 0
        &&& group.blocks@.to_multiset() == entries@.filter(
            |e: FetchEntry| e.chunk_idx == group.chunk_idx && e.pack_id == group.pack_id,
        ).to_multiset()
        &&& forall|i: int, j: int|
            0 <= i < j < group.blocks@.len() ==> (#[trigger] group.blocks@[i]).offset <= (
            #[trigger] group.blocks@[j]).offset
    } by {
        let group = groups@[g];
        law_groups_are_ordered_and_complete(entries@, group.chunk_idx, group.pack_id);
        assert((|e: FetchEntry| of_pack(e, group.chunk_idx, group.pack_id)) =~= (
        |e: FetchEntry| e.chunk_idx == group.chunk_idx && e.pack_id == group.pack_id));
    }
    if 0 <= k < entries@.len() {
        assert(has_group(groups@, entries@[k].chunk_idx, entries@[k].pack_id));
    }
}

/// Compressed lengths add up.
pub proof fn law_lengths_add_up(a: Seq<FetchEntry>, b: Seq<FetchEntry>)
    ensures
        total_comp(a + b) == total_comp(a) + total_comp(b),
        b.len() == 1 ==> total_comp(b) == b[0].comp_len,
    decreases b.len(),
{
    if b.len() == 0 {
        assert(a + b =~= a);
    } else {
        law_lengths_add_up(a, b.drop_last());
        assert((a + b).drop_last() =~= a + b.drop_last());
        assert((a + b).last() == b.last());
        if b.len() == 1 {
            assert(b.drop_last() =~= Seq::empty());
        }
    }
}

/// One request for a group asks for all of its blocks and nothing outside them: it starts with the
/// first and ends with the last. The blocks are asked for one by one exactly if there is but one,
/// or the request would be more than twice as long as the blocks together.
pub proof fn law_group_is_planned(blocks: Vec<FetchEntry>, plan: FetchPlan)
    requires
        call_ensures(plan_group, (&blocks,), plan),
        blocks@.len() > 0,
        blocks@.last().offset + blocks@.last().comp_len <= u32::MAX,
        forall|i: int, j: int|
            0 <= i < j < blocks@.len() ==> (#[trigger] blocks@[i]).offset + blocks@[i].comp_len <= (
            #[trigger] blocks@[j]).offset,
    ensures
        plan is Individually <==> blocks@.len() == 1 || blocks@.last().offset
            + blocks@.last().comp_len - blocks@[0].offset > 2 * total_comp(blocks@),
        plan matches FetchPlan::Range { start, len } ==> {
            &&& start == blocks@[0].offset
            &&& start + len == blocks@.last().offset + blocks@.last().comp_len
            &&& forall|k: int|
                0 <= k < blocks@.len() ==> start <= (#[trigger] blocks@[k]).offset
                    && blocks@[k].offset + blocks@[k].comp_len <= start + len
        },
{
    let n = blocks@.len() as int;
    assert(blocks@.last() == blocks@[n - 1]);
}

/// The bytes of one request are cut into the blocks: each gets the bytes that the pack has for it.
pub proof fn law_range_is_split(
    pack: Seq<u8>,
    blocks: Vec<FetchEntry>,
    start: u32,
    data: Vec<u8>,
    parts: Vec<Vec<u8>>,
    k: int,
)
    requires
        call_ensures(split_range, (&blocks, start, &data), parts),
        start + data@.len() <= pack.len(),
        data@ == pack.subrange(start as int, start + data@.len()),
        0 <= k < blocks@.len(),
        start <= blocks@[k].offset,
        blocks@[k].offset + blocks@[k].comp_len <= start + data@.len(),
    ensures
        parts@.len() == blocks@.len(),
        parts@[k]@ == pack.subrange(
            blocks@[k].offset as int,
            blocks@[k].offset + blocks@[k].comp_len,
        ),
{
    law_range_fetch_equals_single_fetch(pack, blocks@[k], start, data@.len() as int);
    assert(parts@[k]@ == data@.subrange(
        blocks@[k].offset - start,
        blocks@[k].offset - start + blocks@[k].comp_len,
    ));
}

/// Data passes exactly if its hash is the expected one. The text of a hash has 32 digits, and
/// different hashes have different texts.
pub proof fn law_hashes_are_compared(
    expected: Blake3Hash,
    actual: Blake3Hash,
    result: Result<(), CacheError>,
)
    requires
        call_ensures(verify_block_hash, (expected, actual), result),
    ensures
        result is Ok <==> expected == actual,
        result matches Err(e) ==> e is HashMismatch,
        hash_text(expected).len() == 32,
        hash_text(expected) == hash_text(actual) ==> expected == actual,
{
    let high = 0x1_0000_0000_0000_0000;
    lemma_hex16_value(expected as int / high);
    lemma_hex16_value(expected as int % high);
    lemma_hex16_value(actual as int / high);
    lemma_hex16_value(actual as int % high);
    let a = hash_text(expected);
    let b = hash_text(actual);
    assert(a.take(16) =~= hex16(expected as int / high));
    assert(a.skip(16) =~= hex16(expected as int % high));
    assert(b.take(16) =~= hex16(actual as int / high));
    assert(b.skip(16) =~= hex16(actual as int % high));
}

/// The text of a hash is the number in hexadecimal, all 32 digits of it.
pub proof fn law_hash_text_reads_back(hash: Blake3Hash)
    ensures
        hash_text(hash).len() == 32,
        digits_value(hash_text(hash), 16) == Some(hash as int),
{
    let high = hash as int / 0x1_0000_0000_0000_0000;
    let low = hash as int % 0x1_0000_0000_0000_0000;
    lemma_hex16_value(high);
    lemma_hex16_value(low);
    law_digits_are_positional(hex16(high), hex16(low), 16);
    assert(pow(16, 16) == 0x1_0000_0000_0000_0000) by {
        reveal_with_fuel(pow, 17);
    }
    assert(hash_text(hash) =~= hex16(high) + hex16(low));
}

} // verus!
