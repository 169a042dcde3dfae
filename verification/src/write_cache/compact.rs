//! Compaction: merging the packs of a chunk into one.
//!
//! The newest entry of each place survives. Compressed data is copied as it is.

use std::collections::{HashMap, HashSet};
use vstd::prelude::*;
use vstd::string::StringExecFns;
use crate::write_cache::error::{CacheError, IoError, IoErrorKind};
use crate::write_cache::flush::PackId;
use crate::write_cache::locate::{
    entry_for, lemma_entry_for, newest_entry, BlockAt, PackIndexEntry, PackView,
};

verus! {

/// Default compaction threshold: compact when a chunk has more than this many packs.
pub const DEFAULT_COMPACTION_THRESHOLD: usize = 16;

/// Result of compacting a single chunk.
#[derive(Debug)]
pub struct CompactionResult {
    /// Chunk index that was compacted.
    pub chunk_idx: u32,
    /// New base pack ID.
    pub new_pack_id: PackId,
    /// Old pack IDs that were replaced (caller may delete if not referenced by snapshots).
    pub old_pack_ids: Vec<PackId>,
    /// Number of live blocks in the new base pack.
    pub live_blocks: usize,
    /// Size of the new base pack in bytes.
    pub new_pack_size: u64,
}

/// How many entries of the packs of a chunk are superseded, and how many there
/// are.
#[derive(Clone, Copy, Debug, PartialEq, Eq, Structural)]
pub struct DeadCount {
    pub dead: usize,
    pub total: usize,
}

/// The index of a pack.
pub struct PackIndex {
    pub pack_id: PackId,
    pub entries: Vec<PackIndexEntry>,
}

/// A live block of a chunk: an entry and the pack that it is in.
#[derive(Clone, Copy, Debug, PartialEq, Eq, Structural)]
pub struct LiveBlock {
    pub pack_id: PackId,
    pub entry: PackIndexEntry,
}

/// The entries of a pack, each with its pack.
pub open spec fn tagged(pack: PackIndex) -> Seq<LiveBlock> {
    Seq::new(
        pack.entries@.len(),
        |i: int| LiveBlock { pack_id: pack.pack_id, entry: pack.entries@[i] },
    )
}

/// The entries of the first `n` packs, oldest pack first.
pub open spec fn flattened(packs: Seq<PackIndex>, n: nat) -> Seq<LiveBlock>
    decreases n,
{
    if n == 0 {
        Seq::empty()
    } else {
        flattened(packs, (n - 1) as nat) + tagged(packs[n - 1])
    }
}

/// The last entry at a place.
pub open spec fn last_for(list: Seq<LiveBlock>, place: u32) -> Option<LiveBlock>
    decreases list.len(),
{
    if list.len() == 0 {
        None
    } else if list.last().entry.chunk_offset == place {
        Some(list.last())
    } else {
        last_for(list.drop_last(), place)
    }
}

/// Whether `live` has exactly the last entry of each place of a list.
pub open spec fn live_of(live: Seq<LiveBlock>, list: Seq<LiveBlock>) -> bool {
    &&& forall|i: int, j: int|
        0 <= i < j < live.len() ==> (#[trigger] live[i]).entry.chunk_offset != (
        #[trigger] live[j]).entry.chunk_offset
    &&& forall|i: int|
        0 <= i < live.len() ==> last_for(list, (#[trigger] live[i]).entry.chunk_offset) == Some(
            live[i],
        )
    &&& forall|k: int| 0 <= k < list.len() ==> has_place(live, (#[trigger] list[k]).entry.chunk_offset)
}

/// Whether a list has an entry at a place.
pub open spec fn has_place(list: Seq<LiveBlock>, place: u32) -> bool {
    exists|i: int| 0 <= i < list.len() && (#[trigger] list[i]).entry.chunk_offset == place
}

/// Merges packs, which are listed oldest first: the newest entry of each place
/// stays.
pub fn merge_packs(packs: &Vec<PackIndex>) -> (live: Vec<LiveBlock>)
    ensures
        live_of(live@, flattened(packs@, packs@.len())),
{
    let mut live: Vec<LiveBlock> = Vec::new();
    let mut at: HashMap<u32, usize> = HashMap::new();
    let mut n: usize = 0;
    while n < packs.len()
        invariant
            n <= packs@.len(),
            live_of(live@, flattened(packs@, n as nat)),
            indexed(at@, live@),
        decreases packs@.len() - n,
    {
        let pack: &PackIndex = &packs[n];
        let ghost older = flattened(packs@, n as nat);
        let mut k: usize = 0;
        assert(older + tagged(*pack).take(0) =~= older);
        while k < pack.entries.len()
            invariant
                k <= pack.entries@.len(),
                live_of(live@, older + tagged(*pack).take(k as int)),
                indexed(at@, live@),
            decreases pack.entries@.len() - k,
        {
            broadcast use vstd::std_specs::hash::group_hash_axioms;

            let block = LiveBlock { pack_id: pack.pack_id, entry: pack.entries[k] };
            let place: u32 = block.entry.chunk_offset;
            let ghost list0 = older + tagged(*pack).take(k as int);
            let ghost list = older + tagged(*pack).take(k + 1);
            let ghost live0 = live@;
            let ghost at0 = at@;
            assert(list =~= list0.push(block));
            assert(list.drop_last() =~= list0);
            match at.get(&place) {
                Some(i) => {
                    let i: usize = *i;
                    live.set(i, block);
                    assert(live@ =~= live0.update(i as int, block));
                    assert(live0[i as int].entry.chunk_offset == place);
                },
                None => {
                    proof {
                        if has_place(live0, place) {
                            let i = choose|i: int|
                                0 <= i < live0.len() && (#[trigger] live0[i]).entry.chunk_offset
                                    == place;
                            assert(at0.contains_key(live0[i].entry.chunk_offset));
                        }
                    }
                    at.insert(place, live.len());
                    live.push(block);
                },
            }
            proof {
                lemma_live_step(live0, live@, list0, block);
                assert forall|key: u32| #[trigger] at@.contains_key(key) implies at@[key]
                    < live@.len() && live@[at@[key] as int].entry.chunk_offset == key by {
                    if key != place {
                        assert(at0.contains_key(key));
                    }
                }
                assert forall|i: int| 0 <= i < live@.len() implies at@.contains_key(
                    (#[trigger] live@[i]).entry.chunk_offset,
                ) by {
                    if i < live0.len() && live@[i] == live0[i] {
                        assert(at0.contains_key(live0[i].entry.chunk_offset));
                    }
                }
            }
            k = k + 1;
        }
        assert(tagged(*pack).take(k as int) =~= tagged(*pack));
        n = n + 1;
    }
    live
}

/// Whether `at` says where each place stands in a list.
spec fn indexed(at: Map<u32, usize>, live: Seq<LiveBlock>) -> bool {
    &&& forall|key: u32| #[trigger]
        at.contains_key(key) ==> at[key] < live.len() && live[at[key] as int].entry.chunk_offset
            == key
    &&& forall|i: int|
        0 <= i < live.len() ==> at.contains_key((#[trigger] live[i]).entry.chunk_offset)
}

/// Taking one more entry in keeps the live blocks.
proof fn lemma_live_step(
    live0: Seq<LiveBlock>,
    live: Seq<LiveBlock>,
    list0: Seq<LiveBlock>,
    block: LiveBlock,
)
    requires
        live_of(live0, list0),
        (exists|i: int|
            0 <= i < live0.len() && (#[trigger] live0[i]).entry.chunk_offset
                == block.entry.chunk_offset && live == live0.update(i, block)) || (live
            == live0.push(block) && !has_place(live0, block.entry.chunk_offset)),
    ensures
        live_of(live, list0.push(block)),
{
    let place = block.entry.chunk_offset;
    let list = list0.push(block);
    assert(list.drop_last() =~= list0);
    if live == live0.push(block) && !has_place(live0, place) {
        assert forall|i: int, j: int| 0 <= i < j < live.len() implies (
        #[trigger] live[i]).entry.chunk_offset != (#[trigger] live[j]).entry.chunk_offset by {
            assert(live[i] == live0[i]);
            if j == live0.len() && live0[i].entry.chunk_offset == place {
                assert(has_place(live0, place));
            }
        }
        assert forall|i: int| 0 <= i < live.len() implies last_for(
            list,
            (#[trigger] live[i]).entry.chunk_offset,
        ) == Some(live[i]) by {
            if i < live0.len() {
                assert(live[i] == live0[i]);
                if live0[i].entry.chunk_offset == place {
                    assert(has_place(live0, place));
                }
            }
        }
        assert forall|k: int| 0 <= k < list.len() implies has_place(
            live,
            (#[trigger] list[k]).entry.chunk_offset,
        ) by {
            if k < list0.len() {
                assert(list[k] == list0[k]);
                assert(has_place(live0, list0[k].entry.chunk_offset));
                let i = choose|i: int|
                    0 <= i < live0.len() && (#[trigger] live0[i]).entry.chunk_offset
                        == list0[k].entry.chunk_offset;
                assert(live[i] == live0[i]);
            } else {
                assert(live[live0.len() as int] == block);
            }
        }
    } else {
        let at = choose|i: int|
            0 <= i < live0.len() && (#[trigger] live0[i]).entry.chunk_offset == place && live
                == live0.update(i, block);
        assert forall|i: int| 0 <= i < live.len() implies (#[trigger] live[i]).entry.chunk_offset
            == live0[i].entry.chunk_offset by {}
        assert forall|i: int, j: int| 0 <= i < j < live.len() implies (
        #[trigger] live[i]).entry.chunk_offset != (#[trigger] live[j]).entry.chunk_offset by {
            assert(live0[i].entry.chunk_offset != live0[j].entry.chunk_offset);
        }
        assert forall|i: int| 0 <= i < live.len() implies last_for(
            list,
            (#[trigger] live[i]).entry.chunk_offset,
        ) == Some(live[i]) by {
            if i != at {
                assert(live[i] == live0[i]);
                if i < at {
                    assert(live0[i].entry.chunk_offset != live0[at].entry.chunk_offset);
                } else {
                    assert(live0[at].entry.chunk_offset != live0[i].entry.chunk_offset);
                }
                assert(last_for(list0, live0[i].entry.chunk_offset) == Some(live0[i]));
            }
        }
        assert forall|k: int| 0 <= k < list.len() implies has_place(
            live,
            (#[trigger] list[k]).entry.chunk_offset,
        ) by {
            if k < list0.len() {
                assert(list[k] == list0[k]);
                assert(has_place(live0, list0[k].entry.chunk_offset));
                let i = choose|i: int|
                    0 <= i < live0.len() && (#[trigger] live0[i]).entry.chunk_offset
                        == list0[k].entry.chunk_offset;
                assert(live[i].entry.chunk_offset == live0[i].entry.chunk_offset);
            } else {
                assert(live[at].entry.chunk_offset == place);
            }
        }
    }
}

/// The packs of a chunk with all their indices at hand.
pub open spec fn as_views(packs: Seq<PackIndex>) -> Seq<PackView> {
    Seq::new(
        packs.len(),
        |i: int| PackView { pack_id: packs[i].pack_id, entries: Some(packs[i].entries) },
    )
}

/// What a reader learns from an entry.
pub open spec fn at_of(block: LiveBlock) -> BlockAt {
    BlockAt {
        pack_id: block.pack_id,
        hash: block.entry.hash,
        pack_offset: block.entry.offset,
        comp_length: block.entry.comp_length,
    }
}

/// Compaction changes nothing that a reader sees: the live block of a place is
/// the one that a reader finds in the old packs, and a place without one had none.
/// A pack has at most one entry per place.
pub proof fn law_compaction_preserves_blocks(packs: Seq<PackIndex>, n: nat, place: u32)
    requires
        n <= packs.len(),
        forall|p: int, i: int, j: int|
            0 <= p < packs.len() && 0 <= i < j < packs[p].entries@.len()
                ==> (#[trigger] packs[p].entries@[i]).chunk_offset != (
            #[trigger] packs[p].entries@[j]).chunk_offset,
    ensures
        newest_entry(as_views(packs), n, place) == match last_for(
            flattened(packs, n),
            place,
        ) {
            Some(block) => Some(at_of(block)),
            None => None,
        },
    decreases n,
{
    if n > 0 {
        let m = (n - 1) as nat;
        law_compaction_preserves_blocks(packs, m, place);
        let pack = packs[m as int];
        lemma_last_for_concat(flattened(packs, m), tagged(pack), place);
        assert forall|i: int, j: int| 0 <= i < j < pack.entries@.len() implies (
        #[trigger] pack.entries@[i]).chunk_offset != (#[trigger] pack.entries@[j]).chunk_offset by {
            assert(packs[m as int].entries@[i].chunk_offset
                != packs[m as int].entries@[j].chunk_offset);
        }
        lemma_last_is_first(pack, place, 0);
        assert(tagged(pack).skip(0) =~= tagged(pack));
        assert(pack.entries@.skip(0) =~= pack.entries@);
        assert(as_views(packs)[m as int].entries == Some(pack.entries));
    }
}

/// Whether the index of a pack has exactly the live blocks: an entry for each, with
/// its place, hash and length, and no other.
pub open spec fn lists_live(entries: Seq<PackIndexEntry>, live: Seq<LiveBlock>) -> bool {
    &&& forall|i: int|
        0 <= i < live.len() ==> exists|j: int|
            0 <= j < entries.len() && is_copy_of(#[trigger] entries[j], #[trigger] live[i].entry)
    &&& forall|j: int|
        0 <= j < entries.len() ==> exists|i: int|
            0 <= i < live.len() && is_copy_of(#[trigger] entries[j], #[trigger] live[i].entry)
}

/// Whether an entry is of the same data at the same place, wherever that lies.
pub open spec fn is_copy_of(entry: PackIndexEntry, other: PackIndexEntry) -> bool {
    entry.chunk_offset == other.chunk_offset && entry.hash == other.hash && entry.comp_length
        == other.comp_length
}

/// The packs of a chunk after its compaction: one with the live blocks, or none if
/// there are none.
pub open spec fn compacted(live: Seq<LiveBlock>, base: PackView) -> Seq<PackView> {
    if live.len() == 0 {
        Seq::empty()
    } else {
        seq![base]
    }
}

/// Whether two answers are of the same data.
pub open spec fn same_data(a: Option<BlockAt>, b: Option<BlockAt>) -> bool {
    match (a, b) {
        (Some(a), Some(b)) => a.hash == b.hash && a.comp_length == b.comp_length,
        (None, None) => true,
        _ => false,
    }
}

/// A compacted chunk answers as before: at every place a reader finds the same
/// hash and length in the new pack as in the old ones, or nothing in either.
pub proof fn law_compacted_packs_answer_alike(
    packs: Seq<PackIndex>,
    live: Seq<LiveBlock>,
    base: PackView,
    place: u32,
)
    requires
        forall|p: int, i: int, j: int|
            0 <= p < packs.len() && 0 <= i < j < packs[p].entries@.len()
                ==> (#[trigger] packs[p].entries@[i]).chunk_offset != (
            #[trigger] packs[p].entries@[j]).chunk_offset,
        live_of(live, flattened(packs, packs.len())),
        live.len() > 0 ==> (base.entries matches Some(entries) && lists_live(entries@, live)),
    ensures
        same_data(
            newest_entry(as_views(packs), packs.len(), place),
            newest_entry(compacted(live, base), compacted(live, base).len(), place),
        ),
{
    law_compaction_preserves_blocks(packs, packs.len(), place);
    let list = flattened(packs, packs.len());
    lemma_last_for(list, place);
    let found = last_for(list, place);
    if found is Some {
        let k = choose|k: int| 0 <= k < list.len() && (#[trigger] list[k]).entry.chunk_offset == place;
        assert(has_place(live, list[k].entry.chunk_offset));
    }
    if live.len() > 0 {
        let entries = base.entries->Some_0@;
        lemma_entry_for(entries, place);
        assert(newest_entry(seq![base], 0, place) is None);
        if found is Some {
            let i = choose|i: int|
                0 <= i < live.len() && (#[trigger] live[i]).entry.chunk_offset == place;
            assert(Some(live[i]) == found);
            let e = live[i].entry;
            let j = choose|j: int| 0 <= j < entries.len() && is_copy_of(#[trigger] entries[j], e);
            assert(entries[j].chunk_offset == place);
        }
        match entry_for(entries, place) {
            Some(entry) => {
                let j = choose|j: int| 0 <= j < entries.len() && (#[trigger] entries[j]) == entry;
                let i = choose|i: int|
                    0 <= i < live.len() && is_copy_of(entries[j], #[trigger] live[i].entry);
                assert(last_for(list, live[i].entry.chunk_offset) == Some(live[i]));
            },
            None => {},
        }
    }
}

/// A place has a last entry where it has one.
proof fn lemma_last_for(list: Seq<LiveBlock>, place: u32)
    ensures
        match last_for(list, place) {
            Some(block) => block.entry.chunk_offset == place && exists|k: int|
                0 <= k < list.len() && (#[trigger] list[k]).entry.chunk_offset == place,
            None => forall|k: int|
                0 <= k < list.len() ==> (#[trigger] list[k]).entry.chunk_offset != place,
        },
    decreases list.len(),
{
    if list.len() > 0 {
        let rest = list.drop_last();
        lemma_last_for(rest, place);
        if list.last().entry.chunk_offset == place {
            assert(list[list.len() - 1].entry.chunk_offset == place);
        } else {
            match last_for(rest, place) {
                Some(_) => {
                    let k = choose|k: int|
                        0 <= k < rest.len() && (#[trigger] rest[k]).entry.chunk_offset == place;
                    assert(list[k].entry.chunk_offset == place);
                },
                None => {
                    assert forall|k: int| 0 <= k < list.len() implies (
                    #[trigger] list[k]).entry.chunk_offset != place by {
                        if k < rest.len() {
                            assert(rest[k] == list[k]);
                        }
                    }
                },
            }
        }
    }
}

proof fn lemma_last_for_concat(a: Seq<LiveBlock>, b: Seq<LiveBlock>, place: u32)
    ensures
        last_for(a + b, place) == match last_for(b, place) {
            Some(block) => Some(block),
            None => last_for(a, place),
        },
    decreases b.len(),
{
    if b.len() == 0 {
        assert(a + b =~= a);
    } else {
        assert((a + b).drop_last() =~= a + b.drop_last());
        lemma_last_for_concat(a, b.drop_last(), place);
    }
}

/// Where places are distinct, the last entry at a place is the first.
proof fn lemma_last_is_first(pack: PackIndex, place: u32, from: int)
    requires
        0 <= from <= pack.entries@.len(),
        forall|i: int, j: int|
            0 <= i < j < pack.entries@.len() ==> (#[trigger] pack.entries@[i]).chunk_offset != (
            #[trigger] pack.entries@[j]).chunk_offset,
    ensures
        last_for(tagged(pack).skip(from), place) == match entry_for(
            pack.entries@.skip(from),
            place,
        ) {
            Some(entry) => Some(LiveBlock { pack_id: pack.pack_id, entry }),
            None => None,
        },
    decreases pack.entries@.len() - from,
{
    let list = tagged(pack).skip(from);
    let entries = pack.entries@.skip(from);
    if from < pack.entries@.len() {
        lemma_last_is_first(pack, place, from + 1);
        assert(list.skip(1) =~= tagged(pack).skip(from + 1));
        assert(entries.skip(1) =~= pack.entries@.skip(from + 1));
        assert(list =~= seq![list[0]] + list.skip(1));
        lemma_last_for_concat(seq![list[0]], list.skip(1), place);
        assert(last_for(seq![list[0]], place) == (if list[0].entry.chunk_offset == place {
            Some(list[0])
        } else {
            None
        })) by {
            let one = seq![list[0]];
            assert(one.drop_last() =~= Seq::<LiveBlock>::empty());
            assert(last_for(one.drop_last(), place) is None);
            assert(one.last() == list[0]);
        }
        if entries[0].chunk_offset == place {
            lemma_entry_absent(pack, place, from);
        }
    }
}

proof fn lemma_entry_absent(pack: PackIndex, place: u32, at: int)
    requires
        0 <= at < pack.entries@.len(),
        pack.entries@[at].chunk_offset == place,
        forall|i: int, j: int|
            0 <= i < j < pack.entries@.len() ==> (#[trigger] pack.entries@[i]).chunk_offset != (
            #[trigger] pack.entries@[j]).chunk_offset,
    ensures
        entry_for(pack.entries@.skip(at + 1), place) is None,
{
    lemma_entry_absent_from(pack, place, at, at + 1);
}

proof fn lemma_entry_absent_from(pack: PackIndex, place: u32, at: int, from: int)
    requires
        0 <= at < from <= pack.entries@.len(),
        pack.entries@[at].chunk_offset == place,
        forall|i: int, j: int|
            0 <= i < j < pack.entries@.len() ==> (#[trigger] pack.entries@[i]).chunk_offset != (
            #[trigger] pack.entries@[j]).chunk_offset,
    ensures
        entry_for(pack.entries@.skip(from), place) is None,
    decreases pack.entries@.len() - from,
{
    if from < pack.entries@.len() {
        assert(pack.entries@[at].chunk_offset != pack.entries@[from].chunk_offset);
        assert(pack.entries@.skip(from).skip(1) =~= pack.entries@.skip(from + 1));
        lemma_entry_absent_from(pack, place, at, from + 1);
    }
}

/// The number of entries in the first `n` packs.
pub open spec fn entry_total(packs: Seq<PackIndex>, n: nat) -> nat
    decreases n,
{
    if n == 0 {
        0
    } else {
        entry_total(packs, (n - 1) as nat) + packs[n - 1].entries@.len()
    }
}

/// The places of a list.
pub open spec fn places(list: Seq<LiveBlock>) -> Set<u32> {
    list.map_values(|block: LiveBlock| block.entry.chunk_offset).to_set()
}

/// Counts the superseded entries of a chunk: those beyond one per place. With
/// fewer than two packs none is counted.
pub fn dead_block_count(packs: &Vec<PackIndex>) -> (count: DeadCount)
    requires
        entry_total(packs@, packs@.len()) <= usize::MAX,
    ensures
        count == (if packs@.len() < 2 {
            DeadCount { dead: 0, total: 0 }
        } else {
            DeadCount {
                dead: (entry_total(packs@, packs@.len()) - places(
                    flattened(packs@, packs@.len()),
                ).len()) as usize,
                total: entry_total(packs@, packs@.len()) as usize,
            }
        }),
{
    broadcast use vstd::std_specs::hash::group_hash_axioms;

    if packs.len() < 2 {
        return DeadCount { dead: 0, total: 0 };
    }
    let mut total: usize = 0;
    let mut live: HashSet<u32> = HashSet::new();
    let mut n: usize = 0;
    assert(places(flattened(packs@, 0)) =~= Set::<u32>::empty());
    while n < packs.len()
        invariant
            n <= packs@.len(),
            entry_total(packs@, packs@.len()) <= usize::MAX,
            total == entry_total(packs@, n as nat),
            live@ == places(flattened(packs@, n as nat)),
            live@.finite(),
            live@.len() <= total,
        decreases packs@.len() - n,
    {
        let pack: &PackIndex = &packs[n];
        let ghost older = flattened(packs@, n as nat);
        proof {
            lemma_entry_total(packs@, (n + 1) as nat);
            assert(older + tagged(*pack).take(0) =~= older);
        }
        let mut k: usize = 0;
        while k < pack.entries.len()
            invariant
                k <= pack.entries@.len(),
                live@ == places(older + tagged(*pack).take(k as int)),
                live@.finite(),
                live@.len() <= total + k,
            decreases pack.entries@.len() - k,
        {
            broadcast use vstd::std_specs::hash::group_hash_axioms;

            let ghost list0 = older + tagged(*pack).take(k as int);
            let ghost list = older + tagged(*pack).take(k + 1);
            let ghost block = tagged(*pack)[k as int];
            assert(list =~= list0.push(block));
            proof {
                lemma_places_push(list0, block);
            }
            live.insert(pack.entries[k].chunk_offset);
            k = k + 1;
        }
        assert(tagged(*pack).take(k as int) =~= tagged(*pack));
        total = total + pack.entries.len();
        n = n + 1;
    }
    DeadCount { dead: total - live.len(), total }
}

proof fn lemma_entry_total(packs: Seq<PackIndex>, n: nat)
    requires
        n <= packs.len(),
    ensures
        entry_total(packs, n) <= entry_total(packs, packs.len()),
    decreases packs.len() - n,
{
    if n < packs.len() {
        lemma_entry_total(packs, n + 1);
    }
}

proof fn lemma_places_push(list: Seq<LiveBlock>, block: LiveBlock)
    ensures
        places(list.push(block)) == places(list).insert(block.entry.chunk_offset),
{
    let f = |b: LiveBlock| b.entry.chunk_offset;
    let a = list.map_values(f);
    let b = list.push(block).map_values(f);
    assert(b =~= a.push(block.entry.chunk_offset));
    assert forall|place: u32| b.to_set().contains(place) <==> a.to_set().insert(
        block.entry.chunk_offset,
    ).contains(place) by {
        if b.contains(place) {
            let i = choose|i: int| 0 <= i < b.len() && b[i] == place;
            if i < a.len() {
                assert(a[i] == place);
            }
        }
        if a.contains(place) {
            let i = choose|i: int| 0 <= i < a.len() && a[i] == place;
            assert(b[i] == place);
        }
        assert(b[a.len() as int] == block.entry.chunk_offset);
    }
    assert(places(list.push(block)) =~= places(list).insert(block.entry.chunk_offset));
}

/// Whether an entry needs no data: its block is all zeros.
pub open spec fn is_tombstone(block: LiveBlock) -> bool {
    block.entry.comp_length == 0
}

/// Splits live blocks into those of zeros, which go into the new pack as they
/// are, and those whose data has to be fetched.
pub fn split_live(live: &Vec<LiveBlock>) -> (parts: (Vec<LiveBlock>, Vec<LiveBlock>))
    ensures
        parts.0@ == live@.filter(|b: LiveBlock| is_tombstone(b)),
        parts.1@ == live@.filter(|b: LiveBlock| !is_tombstone(b)),
{
    let ghost zero = |b: LiveBlock| is_tombstone(b);
    let ghost data = |b: LiveBlock| !is_tombstone(b);
    let mut zeros: Vec<LiveBlock> = Vec::new();
    let mut fetch: Vec<LiveBlock> = Vec::new();
    let mut k: usize = 0;
    proof {
        reveal(Seq::filter);
    }
    while k < live.len()
        invariant
            k <= live@.len(),
            zero == (|b: LiveBlock| is_tombstone(b)),
            data == (|b: LiveBlock| !is_tombstone(b)),
            zeros@ == live@.take(k as int).filter(zero),
            fetch@ == live@.take(k as int).filter(data),
        decreases live@.len() - k,
    {
        proof {
            reveal(Seq::filter);
            assert(live@.take(k + 1).drop_last() =~= live@.take(k as int));
        }
        if live[k].entry.comp_length == 0 {
            zeros.push(live[k]);
        } else {
            fetch.push(live[k]);
        }
        k = k + 1;
    }
    assert(live@.take(k as int) =~= live@);
    (zeros, fetch)
}

/// The highest end of data of the entries.
pub open spec fn data_end(entries: Seq<PackIndexEntry>) -> int
    decreases entries.len(),
{
    if entries.len() == 0 {
        0
    } else {
        let before = data_end(entries.drop_last());
        let end = entries.last().offset + entries.last().comp_length;
        if end > before {
            end
        } else {
            before
        }
    }
}

/// Size of a pack, from its index: data, one index record of `entry_size` bytes
/// per block and a trailer of `trailer_size` bytes.
pub fn pack_size(entries: &Vec<PackIndexEntry>, entry_size: u64, trailer_size: u64) -> (size: u64)
    requires
        data_end(entries@) + entries@.len() * entry_size + trailer_size <= u64::MAX,
    ensures
        size == data_end(entries@) + entries@.len() * entry_size + trailer_size,
{
    let mut end: u64 = 0;
    let mut k: usize = 0;
    while k < entries.len()
        invariant
            k <= entries@.len(),
            end == data_end(entries@.take(k as int)),
        decreases entries@.len() - k,
    {
        assert(entries@.take(k + 1).drop_last() =~= entries@.take(k as int));
        let here: u64 = entries[k].offset as u64 + entries[k].comp_length as u64;
        if here > end {
            end = here;
        }
        k = k + 1;
    }
    assert(entries@.take(k as int) =~= entries@);
    assert(end >= 0);
    end + entries.len() as u64 * entry_size + trailer_size
}

/// The places of the entries with data, in order.
pub open spec fn places_with_data(entries: Seq<PackIndexEntry>) -> Seq<u32>
    decreases entries.len(),
{
    if entries.len() == 0 {
        Seq::empty()
    } else {
        let before = places_with_data(entries.drop_last());
        if entries.last().comp_length > 0 {
            before.push(entries.last().chunk_offset)
        } else {
            before
        }
    }
}

/// The places of a pack that hold data, for the bitmap of the chunk.
pub fn live_offsets(entries: &Vec<PackIndexEntry>) -> (offsets: Vec<u32>)
    ensures
        offsets@ == places_with_data(entries@),
{
    let mut offsets: Vec<u32> = Vec::new();
    let mut k: usize = 0;
    while k < entries.len()
        invariant
            k <= entries@.len(),
            offsets@ == places_with_data(entries@.take(k as int)),
        decreases entries@.len() - k,
    {
        assert(entries@.take(k + 1).drop_last() =~= entries@.take(k as int));
        if entries[k].comp_length > 0 {
            offsets.push(entries[k].chunk_offset);
        }
        k = k + 1;
    }
    assert(entries@.take(k as int) =~= entries@);
    offsets
}

/// What a compaction does with a chunk, from the number of its packs.
#[derive(Clone, Copy, Debug, PartialEq, Eq, Structural)]
pub enum CompactionNeed {
    /// There is nothing to merge.
    No,
    /// Compact if enough of the blocks are superseded.
    IfMostlyDead,
    /// Compact.
    Yes,
}

/// Whether a chunk with `packs` packs is compacted.
pub fn compaction_need(packs: usize, threshold: usize) -> (need: CompactionNeed)
    ensures
        need == (if packs > threshold {
            CompactionNeed::Yes
        } else if packs >= 2 {
            CompactionNeed::IfMostlyDead
        } else {
            CompactionNeed::No
        }),
{
    if packs > threshold {
        CompactionNeed::Yes
    } else if packs >= 2 {
        CompactionNeed::IfMostlyDead
    } else {
        CompactionNeed::No
    }
}

/// What a compaction does once the packs of a chunk are merged.
#[derive(Debug)]
pub enum CompactionPlan {
    /// No block is live: remove the packs and upload nothing. This is the result.
    Remove(CompactionResult),
    /// Upload a new pack with the live blocks, under a new name.
    Upload,
}

/// Decides how the compaction of a chunk goes on.
pub fn plan_compaction(
    chunk_idx: u32,
    old_pack_ids: &Vec<PackId>,
    live: &Vec<LiveBlock>,
) -> (plan: CompactionPlan)
    ensures
        match plan {
            CompactionPlan::Remove(result) => live@.len() == 0 && result.chunk_idx == chunk_idx
                && result.new_pack_id == 0 && result.old_pack_ids@ == old_pack_ids@
                && result.live_blocks == 0 && result.new_pack_size == 0,
            CompactionPlan::Upload => live@.len() > 0,
        },
{
    if live.len() > 0 {
        return CompactionPlan::Upload;
    }
    let mut ids: Vec<PackId> = Vec::new();
    let mut k: usize = 0;
    while k < old_pack_ids.len()
        invariant
            k <= old_pack_ids@.len(),
            ids@ == old_pack_ids@.take(k as int),
        decreases old_pack_ids@.len() - k,
    {
        ids.push(old_pack_ids[k]);
        k = k + 1;
        assert(ids@ =~= old_pack_ids@.take(k as int));
    }
    assert(ids@ =~= old_pack_ids@);
    CompactionPlan::Remove(
        CompactionResult {
            chunk_idx,
            new_pack_id: 0,
            old_pack_ids: ids,
            live_blocks: 0,
            new_pack_size: 0,
        },
    )
}

/// Ends the compaction of a chunk. `replaced` says whether the manifest still had
/// the pack list that the compaction started from; if not, the result must not be
/// used.
pub fn finish_compaction(replaced: bool, result: CompactionResult) -> (outcome: Result<
    CompactionResult,
    CacheError,
>)
    ensures
        match outcome {
            Ok(done) => replaced && done == result,
            Err(e) => !replaced && (e matches CacheError::Io(io) && io.kind == IoErrorKind::Other
                && io.message@ == "compaction aborted: concurrent manifest modification"@),
        },
{
    if !replaced {
        return Err(
            CacheError::Io(
                IoError {
                    kind: IoErrorKind::Other,
                    message: String::from_str(
                        "compaction aborted: concurrent manifest modification",
                    ),
                },
            ),
        );
    }
    Ok(result)
}

/// Whether entry `i` of pack `p` is the newest at its place: no entry behind it in the pack, and
/// none of a later pack, has the place.
pub open spec fn is_newest(packs: Seq<PackIndex>, n: int, p: int, i: int) -> bool {
    &&& 0 <= p < n
    &&& 0 <= i < packs[p].entries@.len()
    &&& forall|j: int|
        i < j < packs[p].entries@.len() ==> (#[trigger] packs[p].entries@[j]).chunk_offset
            != packs[p].entries@[i].chunk_offset
    &&& forall|q: int, j: int|
        p < q < n && 0 <= j < packs[q].entries@.len() ==> (
        #[trigger] packs[q].entries@[j]).chunk_offset != packs[p].entries@[i].chunk_offset
}

proof fn lemma_newest(packs: Seq<PackIndex>, n: nat, place: u32)
    requires
        n <= packs.len(),
    ensures
        last_for(flattened(packs, n), place) matches Some(block) ==> exists|p: int, i: int|
            #[trigger] is_newest(packs, n as int, p, i) && block.pack_id == packs[p].pack_id
                && block.entry == packs[p].entries@[i] && block.entry.chunk_offset == place,
        last_for(flattened(packs, n), place) is None ==> forall|p: int, i: int|
            0 <= p < n && 0 <= i < packs[p].entries@.len() ==> (
            #[trigger] packs[p].entries@[i]).chunk_offset != place,
    decreases n,
{
    if n > 0 {
        let m = (n - 1) as nat;
        let pack = packs[m as int];
        lemma_newest(packs, m, place);
        lemma_last_for_concat(flattened(packs, m), tagged(pack), place);
        lemma_last_in_pack(pack, pack.entries@.len(), place);
        assert(tagged(pack).take(pack.entries@.len() as int) =~= tagged(pack));
        match last_for(tagged(pack), place) {
            Some(block) => {
                let i = choose|i: int|
                    0 <= i < pack.entries@.len() && (#[trigger] pack.entries@[i]).chunk_offset
                        == place && block == (LiveBlock {
                        pack_id: pack.pack_id,
                        entry: pack.entries@[i],
                    }) && forall|j: int|
                        i < j < pack.entries@.len() ==> (#[trigger] pack.entries@[j]).chunk_offset
                            != place;
                assert(is_newest(packs, n as int, m as int, i));
            },
            None => {
                if last_for(flattened(packs, m), place) is Some {
                    let block = last_for(flattened(packs, m), place)->Some_0;
                    let (p, i) = choose|p: int, i: int|
                        #[trigger] is_newest(packs, m as int, p, i) && block.pack_id
                            == packs[p].pack_id && block.entry == packs[p].entries@[i]
                            && block.entry.chunk_offset == place;
                    assert(is_newest(packs, n as int, p, i));
                }
            },
        }
    }
}

proof fn lemma_last_in_pack(pack: PackIndex, n: nat, place: u32)
    requires
        n <= pack.entries@.len(),
    ensures
        match last_for(tagged(pack).take(n as int), place) {
            Some(block) => exists|i: int|
                0 <= i < n && (#[trigger] pack.entries@[i]).chunk_offset == place && block == (
                LiveBlock { pack_id: pack.pack_id, entry: pack.entries@[i] }) && forall|j: int|
                    i < j < n ==> (#[trigger] pack.entries@[j]).chunk_offset != place,
            None => forall|i: int|
                0 <= i < n ==> (#[trigger] pack.entries@[i]).chunk_offset != place,
        },
    decreases n,
{
    if n > 0 {
        let list = tagged(pack).take(n as int);
        assert(list.drop_last() =~= tagged(pack).take(n - 1));
        lemma_last_in_pack(pack, (n - 1) as nat, place);
        assert(list.last().entry == pack.entries@[n - 1]);
    }
}

/// Merging keeps the newest entry of each place, with its pack, and nothing else: what stays is an
/// entry of one of the packs, none that comes after it has its place, no place stays twice, and
/// no place is lost.
pub proof fn law_newest_entries_survive(packs: Vec<PackIndex>, live: Vec<LiveBlock>)
    requires
        call_ensures(merge_packs, (&packs,), live),
    ensures
        forall|k: int|
            0 <= k < live@.len() ==> {
                let block = #[trigger] live@[k];
                exists|p: int, i: int|
                    #[trigger] is_newest(packs@, packs@.len() as int, p, i) && block.pack_id
                        == packs@[p].pack_id && block.entry == packs@[p].entries@[i]
            },
        forall|j: int, k: int|
            0 <= j < k < live@.len() ==> (#[trigger] live@[j]).entry.chunk_offset != (
            #[trigger] live@[k]).entry.chunk_offset,
        forall|p: int, i: int|
            0 <= p < packs@.len() && 0 <= i < packs@[p].entries@.len() ==> has_place(
                live@,
                (#[trigger] packs@[p].entries@[i]).chunk_offset,
            ),
{
    let n = packs@.len();
    let list = flattened(packs@, n);
    assert forall|k: int| 0 <= k < live@.len() implies {
        let block = #[trigger] live@[k];
        exists|p: int, i: int|
            #[trigger] is_newest(packs@, n as int, p, i) && block.pack_id == packs@[p].pack_id
                && block.entry == packs@[p].entries@[i]
    } by {
        lemma_newest(packs@, n, live@[k].entry.chunk_offset);
    }
    assert forall|p: int, i: int|
        0 <= p < packs@.len() && 0 <= i < packs@[p].entries@.len() implies has_place(
        live@,
        (#[trigger] packs@[p].entries@[i]).chunk_offset,
    ) by {
        let place = packs@[p].entries@[i].chunk_offset;
        lemma_newest(packs@, n, place);
        lemma_last_for(list, place);
        let k = choose|k: int| 0 <= k < list.len() && (#[trigger] list[k]).entry.chunk_offset == place;
        assert(has_place(live@, list[k].entry.chunk_offset));
    }
}

proof fn lemma_flattened_len(packs: Seq<PackIndex>, n: nat)
    requires
        n <= packs.len(),
    ensures
        flattened(packs, n).len() == entry_total(packs, n),
        entry_total(packs, n) == packs.take(n as int).map_values(
            |p: PackIndex| p.entries@.len() as int,
        ).fold_left(0int, |a: int, b: int| a + b),
    decreases n,
{
    let f = |p: PackIndex| p.entries@.len() as int;
    if n > 0 {
        lemma_flattened_len(packs, (n - 1) as nat);
        let all = packs.take(n as int).map_values(f);
        assert(all.drop_last() =~= packs.take(n - 1).map_values(f));
        assert(all.last() == packs[n - 1].entries@.len());
    }
}

/// Of the entries of several packs as many are dead as there are beyond those that a merge keeps.
/// All entries of all packs are counted.
pub proof fn law_dead_entries_are_counted(
    packs: Vec<PackIndex>,
    count: DeadCount,
    live: Vec<LiveBlock>,
)
    requires
        call_ensures(dead_block_count, (&packs,), count),
        call_ensures(merge_packs, (&packs,), live),
        entry_total(packs@, packs@.len()) <= usize::MAX,
    ensures
        packs@.len() >= 2 ==> count.dead + live@.len() == count.total,
        packs@.len() >= 2 ==> count.total == packs@.map_values(
            |p: PackIndex| p.entries@.len() as int,
        ).fold_left(0int, |a: int, b: int| a + b),
        packs@.len() < 2 ==> count.dead == 0 && count.total == 0,
{
    let n = packs@.len();
    let list = flattened(packs@, n);
    lemma_flattened_len(packs@, n);
    assert(packs@.take(n as int) =~= packs@);
    let f = |b: LiveBlock| b.entry.chunk_offset;
    let a = live@.map_values(f);
    let b = list.map_values(f);
    assert(a.no_duplicates()) by {
        assert forall|i: int, j: int| 0 <= i < a.len() && 0 <= j < a.len() && i != j implies a[i]
            != a[j] by {
            if i < j {
                assert(live@[i].entry.chunk_offset != live@[j].entry.chunk_offset);
            } else {
                assert(live@[j].entry.chunk_offset != live@[i].entry.chunk_offset);
            }
        }
    }
    a.unique_seq_to_set();
    assert(a.to_set() =~= b.to_set()) by {
        assert forall|place: u32| a.to_set().contains(place) == b.to_set().contains(place) by {
            if a.contains(place) {
                let i = choose|i: int| 0 <= i < a.len() && a[i] == place;
                assert(live@[i].entry.chunk_offset == place);
                lemma_last_for(list, place);
                let k = choose|k: int|
                    0 <= k < list.len() && (#[trigger] list[k]).entry.chunk_offset == place;
                assert(b[k] == place);
            }
            if b.contains(place) {
                let k = choose|k: int| 0 <= k < b.len() && b[k] == place;
                assert(has_place(live@, list[k].entry.chunk_offset));
                let i = choose|i: int|
                    0 <= i < live@.len() && (#[trigger] live@[i]).entry.chunk_offset == place;
                assert(a[i] == place);
            }
        }
    }
    vstd::seq_lib::seq_to_set_is_finite(b);
    b.lemma_cardinality_of_set();
}

/// Live blocks are parted by whether they have data, each part in their order, and none is lost.
pub proof fn law_live_blocks_are_parted(
    live: Vec<LiveBlock>,
    parts: (Vec<LiveBlock>, Vec<LiveBlock>),
)
    requires
        call_ensures(split_live, (&live,), parts),
    ensures
        parts.0@ == live@.filter(|b: LiveBlock| b.entry.comp_length == 0),
        parts.1@ == live@.filter(|b: LiveBlock| b.entry.comp_length != 0),
        parts.0@.len() + parts.1@.len() == live@.len(),
{
    lemma_parts(live@);
}

proof fn lemma_parts(live: Seq<LiveBlock>)
    ensures
        live.filter(|b: LiveBlock| is_tombstone(b)) == live.filter(
            |b: LiveBlock| b.entry.comp_length == 0,
        ),
        live.filter(|b: LiveBlock| !is_tombstone(b)) == live.filter(
            |b: LiveBlock| b.entry.comp_length != 0,
        ),
        live.filter(|b: LiveBlock| is_tombstone(b)).len() + live.filter(
            |b: LiveBlock| !is_tombstone(b),
        ).len() == live.len(),
    decreases live.len(),
{
    reveal(Seq::filter);
    if live.len() > 0 {
        lemma_parts(live.drop_last());
    }
}

proof fn lemma_data_end(entries: Seq<PackIndexEntry>)
    ensures
        forall|i: int|
            0 <= i < entries.len() ==> (#[trigger] entries[i]).offset + entries[i].comp_length
                <= data_end(entries),
        data_end(entries) == 0 || exists|i: int|
            0 <= i < entries.len() && (#[trigger] entries[i]).offset + entries[i].comp_length
                == data_end(entries),
    decreases entries.len(),
{
    if entries.len() > 0 {
        let rest = entries.drop_last();
        lemma_data_end(rest);
        assert forall|i: int| 0 <= i < entries.len() implies (#[trigger] entries[i]).offset
            + entries[i].comp_length <= data_end(entries) by {
            if i < rest.len() {
                assert(rest[i] == entries[i]);
            }
        }
        if data_end(entries) == data_end(rest) {
            if data_end(rest) != 0 {
                let i = choose|i: int|
                    0 <= i < rest.len() && (#[trigger] rest[i]).offset + rest[i].comp_length
                        == data_end(rest);
                assert(entries[i] == rest[i]);
            }
        } else {
            let last = entries[entries.len() - 1];
            assert(last.offset + last.comp_length == data_end(entries));
        }
    }
}

/// A pack is large enough for the data of all its entries, its index and the trailer, and no
/// larger.
pub proof fn law_pack_size(
    entries: Vec<PackIndexEntry>,
    entry_size: u64,
    trailer_size: u64,
    size: u64,
)
    requires
        call_ensures(pack_size, (&entries, entry_size, trailer_size), size),
    ensures
        ({
            let data = size - entries@.len() * entry_size - trailer_size;
            &&& forall|i: int|
                0 <= i < entries@.len() ==> (#[trigger] entries@[i]).offset
                    + entries@[i].comp_length <= data
            &&& data == 0 || exists|i: int|
                0 <= i < entries@.len() && (#[trigger] entries@[i]).offset
                    + entries@[i].comp_length == data
        }),
{
    lemma_data_end(entries@);
}

/// The places of a pack that hold data are those of its entries with data, in their order.
pub proof fn law_places_with_data(entries: Vec<PackIndexEntry>, offsets: Vec<u32>)
    requires
        call_ensures(live_offsets, (&entries,), offsets),
    ensures
        offsets@ == entries@.filter(|e: PackIndexEntry| e.comp_length > 0).map_values(
            |e: PackIndexEntry| e.chunk_offset,
        ),
{
    lemma_places_with_data(entries@);
}

proof fn lemma_places_with_data(entries: Seq<PackIndexEntry>)
    ensures
        places_with_data(entries) == entries.filter(
            |e: PackIndexEntry| e.comp_length > 0,
        ).map_values(|e: PackIndexEntry| e.chunk_offset),
    decreases entries.len(),
{
    reveal(Seq::filter);
    let f = |e: PackIndexEntry| e.comp_length > 0;
    let g = |e: PackIndexEntry| e.chunk_offset;
    if entries.len() > 0 {
        let rest = entries.drop_last();
        lemma_places_with_data(rest);
        if entries.last().comp_length > 0 {
            assert(entries.filter(f) =~= rest.filter(f).push(entries.last()));
            assert(entries.filter(f).map_values(g) =~= rest.filter(f).map_values(g).push(
                g(entries.last()),
            ));
        }
    } else {
        assert(places_with_data(entries) =~= entries.filter(f).map_values(g));
    }
}

/// A chunk with more packs than the threshold is compacted, one with a single pack or none is
/// not, unless that is above the threshold, and for any other it depends on the dead blocks.
pub proof fn law_compaction_need(packs: usize, threshold: usize, need: CompactionNeed)
    requires
        call_ensures(compaction_need, (packs, threshold), need),
    ensures
        need is Yes <==> packs > threshold,
        need is No <==> packs <= threshold && packs < 2,
{
}

/// Packs are removed without a new one exactly if no block is live. The result of a compaction
/// counts only if the manifest still had the packs that it started from.
pub proof fn law_compaction_result(
    chunk_idx: u32,
    old_pack_ids: Vec<PackId>,
    live: Vec<LiveBlock>,
    plan: CompactionPlan,
    replaced: bool,
    result: CompactionResult,
    outcome: Result<CompactionResult, CacheError>,
)
    requires
        call_ensures(plan_compaction, (chunk_idx, &old_pack_ids, &live), plan),
        call_ensures(finish_compaction, (replaced, result), outcome),
    ensures
        plan is Remove <==> live@.len() == 0,
        plan matches CompactionPlan::Remove(r) ==> r.chunk_idx == chunk_idx && r.old_pack_ids@
            == old_pack_ids@ && r.live_blocks == 0 && r.new_pack_size == 0,
        outcome is Ok <==> replaced,
        outcome matches Ok(r) ==> r == result,
{
}

} // verus!
