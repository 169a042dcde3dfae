//! Fetching blocks from packs: one request for many blocks gives what a request for
//! each would give, and data with another hash than expected is never used.

use vstd::prelude::*;
use crate::write_cache::error::CacheError;
use crate::write_cache::flush::{Blake3Hash, PackId};
use crate::write_cache::locate::{
    by_offset, group_fetches, grouped, groups_of, has_group, hash_text, in_range, inserted,
    law_groups_are_ordered_and_complete, law_range_fetch_equals_single_fetch, lemma_total_comp,
    of_pack, plan_of, span, total_comp, verify_block_hash, FetchEntry, FetchGroup, FetchPlan,
};

verus! {

/// What came of fetched data: the blocks whose hash is the expected one, up to the
/// first that has another.
pub struct Accepted {
    /// The index in the read, the hash and the data of each.
    pub verified: Vec<(usize, Blake3Hash, Vec<u8>)>,
    pub result: Result<(), CacheError>,
}

/// Whether `n` blocks of a group were accepted, in order.
pub open spec fn accepted(
    verified: Seq<(usize, Blake3Hash, Vec<u8>)>,
    blocks: Seq<FetchEntry>,
    decoded: Seq<(Vec<u8>, Blake3Hash)>,
    n: int,
) -> bool {
    &&& verified.len() == n <= blocks.len()
    &&& forall|k: int|
        0 <= k < n ==> (#[trigger] verified[k]).0 == blocks[k].idx && verified[k].1
            == blocks[k].expected_hash && verified[k].2@ == decoded[k].0@ && decoded[k].1
            == blocks[k].expected_hash
}

/// Compares fetched blocks with the hashes that the pack index has. `decoded` has the
/// data of each block of a group with its hash. Data that does not match is not handed
/// back, nor is anything behind it.
pub fn accept_fetched(blocks: &Vec<FetchEntry>, decoded: Vec<(Vec<u8>, Blake3Hash)>) -> (done:
    Accepted)
    requires
        decoded@.len() == blocks@.len(),
    ensures
        accepted(done.verified@, blocks@, decoded@, done.verified@.len() as int),
        match done.result {
            Ok(()) => done.verified@.len() == blocks@.len(),
            Err(e) => {
                let k = done.verified@.len() as int;
                &&& k < blocks@.len()
                &&& decoded@[k].1 != blocks@[k].expected_hash
                &&& e matches CacheError::HashMismatch { expected, actual } && expected@
                    == hash_text(blocks@[k].expected_hash) && actual@ == hash_text(decoded@[k].1)
            },
        },
{
    let ghost all = decoded@;
    let mut verified: Vec<(usize, Blake3Hash, Vec<u8>)> = Vec::new();
    for one in it: decoded
        invariant
            it.seq() == all,
            all.len() == blocks@.len(),
            accepted(verified@, blocks@, all, it.index() as int),
    {
        let k: usize = verified.len();
        let (data, actual) = one;
        match verify_block_hash(blocks[k].expected_hash, actual) {
            Ok(()) => {
                verified.push((blocks[k].idx, blocks[k].expected_hash, data));
            },
            Err(e) => {
                return Accepted { verified, result: Err(e) };
            },
        }
    }
    Accepted { verified, result: Ok(()) }
}

/// The bytes of every pack.
pub type Packs = Map<(u32, PackId), Seq<u8>>;

/// What a request for `len` bytes of a pack returns. It fails if the pack has not so many.
pub open spec fn range_of(packs: Packs, pack: (u32, PackId), start: int, len: int) -> Option<
    Seq<u8>,
> {
    if packs.contains_key(pack) && start + len <= packs[pack].len() {
        Some(packs[pack].subrange(start, start + len))
    } else {
        None
    }
}

/// The compressed data that a request for a block alone returns.
pub open spec fn single_piece(packs: Packs, e: FetchEntry) -> Option<Seq<u8>> {
    range_of(packs, (e.chunk_idx, e.pack_id), e.offset as int, e.comp_len as int)
}

/// The compressed data that the requests for a group give for one of its blocks.
pub open spec fn group_piece(packs: Packs, group: FetchGroup, k: int) -> Option<Seq<u8>> {
    let e = group.blocks@[k];
    match plan_of(group.blocks@) {
        FetchPlan::Individually => single_piece(packs, e),
        FetchPlan::Range { start, len } => match range_of(
            packs,
            (group.chunk_idx, group.pack_id),
            start as int,
            len as int,
        ) {
            Some(data) => Some(data.subrange(e.offset - start, e.offset - start + e.comp_len)),
            None => None,
        },
    }
}

/// Compressed data decoded, if it came, can be decoded and has the expected hash.
pub open spec fn decoded_as(
    decode: spec_fn(Seq<u8>) -> Option<Seq<u8>>,
    hash_of: spec_fn(Seq<u8>) -> Blake3Hash,
    piece: Option<Seq<u8>>,
    expected: Blake3Hash,
) -> Option<Seq<u8>> {
    match piece {
        Some(piece) => match decode(piece) {
            Some(data) => if hash_of(data) == expected {
                Some(data)
            } else {
                None
            },
            None => None,
        },
        None => None,
    }
}

/// What a request for a block alone comes to.
pub open spec fn single_fetch(
    packs: Packs,
    decode: spec_fn(Seq<u8>) -> Option<Seq<u8>>,
    hash_of: spec_fn(Seq<u8>) -> Blake3Hash,
    e: FetchEntry,
) -> Option<Seq<u8>> {
    decoded_as(decode, hash_of, single_piece(packs, e), e.expected_hash)
}

/// What the requests for a group come to for one of its blocks.
pub open spec fn group_fetch(
    packs: Packs,
    decode: spec_fn(Seq<u8>) -> Option<Seq<u8>>,
    hash_of: spec_fn(Seq<u8>) -> Blake3Hash,
    group: FetchGroup,
    k: int,
) -> Option<Seq<u8>> {
    decoded_as(decode, hash_of, group_piece(packs, group, k), group.blocks@[k].expected_hash)
}

/// Whether a coalesced fetch succeeds: every block comes and has its hash.
pub open spec fn coalesced_succeeds(
    packs: Packs,
    decode: spec_fn(Seq<u8>) -> Option<Seq<u8>>,
    hash_of: spec_fn(Seq<u8>) -> Blake3Hash,
    groups: Seq<FetchGroup>,
) -> bool {
    forall|g: int, k: int|
        0 <= g < groups.len() && 0 <= k < groups[g].blocks@.len() ==> #[trigger] group_fetch(
            packs,
            decode,
            hash_of,
            groups[g],
            k,
        ) is Some
}

/// Whether a coalesced fetch gives `data` for the `idx`th block of a read.
pub open spec fn coalesced_gives(
    packs: Packs,
    decode: spec_fn(Seq<u8>) -> Option<Seq<u8>>,
    hash_of: spec_fn(Seq<u8>) -> Blake3Hash,
    groups: Seq<FetchGroup>,
    idx: usize,
    data: Seq<u8>,
) -> bool {
    exists|g: int, k: int|
        0 <= g < groups.len() && 0 <= k < groups[g].blocks@.len() && groups[g].blocks@[k].idx == idx
            && #[trigger] group_fetch(packs, decode, hash_of, groups[g], k) == Some(data)
}

/// Whether requests for each block alone give `data` for the `idx`th block of a read.
pub open spec fn singles_give(
    packs: Packs,
    decode: spec_fn(Seq<u8>) -> Option<Seq<u8>>,
    hash_of: spec_fn(Seq<u8>) -> Blake3Hash,
    entries: Seq<FetchEntry>,
    idx: usize,
    data: Seq<u8>,
) -> bool {
    exists|i: int|
        0 <= i < entries.len() && (#[trigger] entries[i]).idx == idx && single_fetch(
            packs,
            decode,
            hash_of,
            entries[i],
        ) == Some(data)
}

/// Whether the blocks of a group can be fetched together: `plan_group` can tell how, and
/// if they are fetched with one request, `split_range` can take it apart.
pub open spec fn can_fetch(blocks: Seq<FetchEntry>) -> bool {
    &&& blocks.len() > 0
    &&& blocks.last().offset + blocks.last().comp_len <= u32::MAX
    &&& total_comp(blocks) <= span(blocks)
    &&& plan_of(blocks) is Range ==> forall|k: int|
        0 <= k < blocks.len() ==> in_range(#[trigger] blocks[k], blocks[0].offset, span(blocks))
}

/// Tests whether the blocks of a group can be fetched together.
pub fn can_fetch_group(blocks: &Vec<FetchEntry>) -> (fits: bool)
    ensures
        fits == can_fetch(blocks@),
{
    let n: usize = blocks.len();
    if n == 0 {
        return false;
    }
    let start: u64 = blocks[0].offset as u64;
    let end: u64 = blocks[n - 1].offset as u64 + blocks[n - 1].comp_len as u64;
    if end > u32::MAX as u64 || end < start {
        return false;
    }
    let len: u64 = end - start;
    let mut total: u64 = 0;
    let mut k: usize = 0;
    while k < n
        invariant
            n == blocks@.len(),
            k <= n,
            len == span(blocks@),
            len <= u32::MAX,
            total <= len,
            total == total_comp(blocks@.take(k as int)),
        decreases n - k,
    {
        proof {
            lemma_total_comp(blocks@, k + 1);
            assert(blocks@.take(k + 1).drop_last() =~= blocks@.take(k as int));
        }
        total = total + blocks[k].comp_len as u64;
        if total > len {
            return false;
        }
        k = k + 1;
    }
    assert(blocks@.take(k as int) =~= blocks@);
    if n == 1 || len - total > total {
        return true;
    }
    let mut k: usize = 0;
    while k < n
        invariant
            n == blocks@.len(),
            k <= n,
            start == blocks@[0].offset,
            len == span(blocks@),
            plan_of(blocks@) is Range,
            forall|j: int|
                0 <= j < k ==> in_range(#[trigger] blocks@[j], blocks@[0].offset, span(blocks@)),
        decreases n - k,
    {
        let from: u64 = blocks[k].offset as u64;
        if from < start || from - start + blocks[k].comp_len as u64 > len {
            assert(!in_range(blocks@[k as int], blocks@[0].offset, span(blocks@)));
            return false;
        }
        k = k + 1;
    }
    true
}

/// Whether two blocks of a pack do not overlap. An empty block does not start where one
/// with data does.
pub open spec fn apart(a: FetchEntry, b: FetchEntry) -> bool {
    &&& a.offset + a.comp_len <= b.offset || b.offset + b.comp_len <= a.offset
    &&& a.offset == b.offset ==> a.comp_len == 0 && b.comp_len == 0
}

/// Whether the blocks to fetch end where a number of 32 bits can tell, and do not
/// overlap in their packs.
pub open spec fn disjoint(entries: Seq<FetchEntry>) -> bool {
    &&& forall|i: int|
        0 <= i < entries.len() ==> (#[trigger] entries[i]).offset + entries[i].comp_len <= u32::MAX
    &&& forall|i: int, j: int|
        0 <= i < j < entries.len() && of_pack(
            #[trigger] entries[j],
            (#[trigger] entries[i]).chunk_idx,
            entries[i].pack_id,
        ) ==> apart(entries[i], entries[j])
}

/// Whether no two blocks of a list overlap.
spec fn all_apart(list: Seq<FetchEntry>) -> bool {
    forall|a: int, b: int|
        0 <= a < b < list.len() ==> apart(#[trigger] list[a], #[trigger] list[b])
}

proof fn lemma_inserted_contains(sorted: Seq<FetchEntry>, entry: FetchEntry, x: FetchEntry)
    ensures
        inserted(sorted, entry).contains(x) <==> sorted.contains(x) || x == entry,
        inserted(sorted, entry).len() == sorted.len() + 1,
    decreases sorted.len(),
{
    let all = inserted(sorted, entry);
    if sorted.len() == 0 || sorted.last().offset <= entry.offset {
        assert(all[sorted.len() as int] == entry);
        if sorted.contains(x) {
            let i = choose|i: int| 0 <= i < sorted.len() && sorted[i] == x;
            assert(all[i] == x);
        }
        if all.contains(x) {
            let i = choose|i: int| 0 <= i < all.len() && all[i] == x;
            if i < sorted.len() {
                assert(sorted[i] == x);
            }
        }
    } else {
        let rest = sorted.drop_last();
        let mid = inserted(rest, entry);
        lemma_inserted_contains(rest, entry, x);
        assert(all[mid.len() as int] == sorted.last());
        if sorted.contains(x) {
            let i = choose|i: int| 0 <= i < sorted.len() && sorted[i] == x;
            if i < rest.len() {
                assert(rest[i] == x);
            }
        }
        if mid.contains(x) {
            let i = choose|i: int| 0 <= i < mid.len() && mid[i] == x;
            assert(all[i] == x);
        }
        if rest.contains(x) {
            let i = choose|i: int| 0 <= i < rest.len() && rest[i] == x;
            assert(sorted[i] == x);
        }
        if all.contains(x) {
            let i = choose|i: int| 0 <= i < all.len() && all[i] == x;
            if i < mid.len() {
                assert(mid[i] == x);
            } else {
                assert(sorted[sorted.len() - 1] == x);
            }
        }
    }
}

proof fn lemma_inserted_apart(sorted: Seq<FetchEntry>, entry: FetchEntry)
    requires
        all_apart(sorted),
        forall|i: int| 0 <= i < sorted.len() ==> apart(#[trigger] sorted[i], entry),
    ensures
        all_apart(inserted(sorted, entry)),
    decreases sorted.len(),
{
    if sorted.len() > 0 && sorted.last().offset > entry.offset {
        let rest = sorted.drop_last();
        let last = sorted.last();
        assert forall|a: int, b: int| 0 <= a < b < rest.len() implies apart(
            #[trigger] rest[a],
            #[trigger] rest[b],
        ) by {
            assert(apart(sorted[a], sorted[b]));
        }
        assert forall|i: int| 0 <= i < rest.len() implies apart(#[trigger] rest[i], entry) by {
            assert(apart(sorted[i], entry));
        }
        lemma_inserted_apart(rest, entry);
        let mid = inserted(rest, entry);
        assert forall|i: int| 0 <= i < mid.len() implies apart(#[trigger] mid[i], last) by {
            lemma_inserted_contains(rest, entry, mid[i]);
            assert(mid.contains(mid[i]));
            let n = sorted.len() - 1;
            if rest.contains(mid[i]) {
                let j = choose|j: int| 0 <= j < rest.len() && rest[j] == mid[i];
                assert(apart(sorted[j], sorted[n]));
            } else {
                assert(apart(sorted[n], entry));
            }
        }
    }
}

proof fn lemma_grouped(entries: Seq<FetchEntry>, chunk_idx: u32, pack_id: PackId)
    ensures
        forall|x: FetchEntry| #[trigger]
            grouped(entries, chunk_idx, pack_id).contains(x) <==> entries.contains(x) && of_pack(
                x,
                chunk_idx,
                pack_id,
            ),
        disjoint(entries) ==> all_apart(grouped(entries, chunk_idx, pack_id)),
    decreases entries.len(),
{
    let list = grouped(entries, chunk_idx, pack_id);
    if entries.len() > 0 {
        let before = entries.drop_last();
        let n = entries.len() - 1;
        let last = entries[n];
        if disjoint(entries) {
            assert forall|i: int| 0 <= i < before.len() implies (#[trigger] before[i]).offset
                + before[i].comp_len <= u32::MAX by {
                assert(before[i] == entries[i]);
            }
            assert forall|i: int, j: int|
                0 <= i < j < before.len() && of_pack(
                    #[trigger] before[j],
                    (#[trigger] before[i]).chunk_idx,
                    before[i].pack_id,
                ) implies apart(before[i], before[j]) by {
                assert(before[i] == entries[i] && before[j] == entries[j]);
            }
        }
        lemma_grouped(before, chunk_idx, pack_id);
        let older = grouped(before, chunk_idx, pack_id);
        assert forall|x: FetchEntry| #[trigger] list.contains(x) <==> entries.contains(x) && of_pack(
            x,
            chunk_idx,
            pack_id,
        ) by {
            lemma_inserted_contains(older, last, x);
            assert(older.contains(x) <==> before.contains(x) && of_pack(x, chunk_idx, pack_id));
            if before.contains(x) {
                let i = choose|i: int| 0 <= i < before.len() && before[i] == x;
                assert(entries[i] == x);
            }
            if entries.contains(x) && x != last {
                let i = choose|i: int| 0 <= i < entries.len() && entries[i] == x;
                assert(before[i] == x);
            }
            if x == last {
                assert(entries.contains(x));
            }
        }
        if disjoint(entries) && of_pack(last, chunk_idx, pack_id) {
            assert forall|i: int| 0 <= i < older.len() implies apart(#[trigger] older[i], last) by {
                assert(older.contains(older[i]));
                let j = choose|j: int| 0 <= j < before.len() && before[j] == older[i];
                assert(entries[j] == before[j]);
                assert(apart(entries[j], entries[n]));
            }
            lemma_inserted_apart(older, last);
        }
    } else {
        assert forall|x: FetchEntry| #[trigger] list.contains(x) <==> entries.contains(x) && of_pack(
            x,
            chunk_idx,
            pack_id,
        ) by {}
    }
}

/// Blocks in order that do not overlap fit between the first and the last.
proof fn lemma_total_fits(list: Seq<FetchEntry>)
    requires
        list.len() > 0,
        by_offset(list),
        all_apart(list),
    ensures
        total_comp(list) <= span(list),
        forall|i: int|
            0 <= i < list.len() ==> list[0].offset <= (#[trigger] list[i]).offset && list[i].offset
                + list[i].comp_len <= list.last().offset + list.last().comp_len,
    decreases list.len(),
{
    let n = list.len() - 1;
    assert forall|i: int|
        0 <= i < list.len() implies list[0].offset <= (#[trigger] list[i]).offset && list[i].offset
        + list[i].comp_len <= list.last().offset + list.last().comp_len by {
        if i > 0 {
            assert(list[0].offset <= list[i].offset);
        }
        if i < n {
            assert(list[i].offset <= list[n].offset);
            assert(apart(list[i], list[n]));
        }
    }
    if list.len() == 1 {
        assert(list.drop_last() =~= Seq::empty());
        assert(total_comp(list.drop_last()) == 0);
    } else {
        let rest = list.drop_last();
        assert forall|i: int, j: int| 0 <= i < j < rest.len() implies (
        #[trigger] rest[i]).offset <= (#[trigger] rest[j]).offset && apart(rest[i], rest[j]) by {
            assert(list[i].offset <= list[j].offset);
            assert(apart(list[i], list[j]));
        }
        lemma_total_fits(rest);
        assert(rest.last() == list[n - 1]);
        assert(apart(list[n - 1], list[n]));
        assert(list[n - 1].offset <= list[n].offset);
    }
}

/// Blocks that do not overlap can be fetched together: their lengths fit between the
/// first and the last of a group, and each lies in the range of the request.
pub proof fn law_groups_can_be_fetched(
    entries: Seq<FetchEntry>,
    groups: Seq<FetchGroup>,
    g: int,
)
    requires
        disjoint(entries),
        groups_of(groups, entries),
        0 <= g < groups.len(),
    ensures
        can_fetch(groups[g].blocks@),
{
    let blocks = groups[g].blocks@;
    let (c, p) = (groups[g].chunk_idx, groups[g].pack_id);
    assert(blocks == grouped(entries, c, p));
    lemma_grouped(entries, c, p);
    law_groups_are_ordered_and_complete(entries, c, p);
    lemma_total_fits(blocks);
    let n = blocks.len() - 1;
    assert(blocks.last() == blocks[n]);
    assert(grouped(entries, c, p).contains(blocks[n]));
    let i = choose|i: int| 0 <= i < entries.len() && entries[i] == blocks[n];
    assert(entries[i].offset + entries[i].comp_len <= u32::MAX);
}

/// A coalesced fetch gives what single fetches give. It succeeds exactly if a request for
/// each block alone does; then it gives, for each block of a read that has to be fetched
/// and for no other, what the request for the block alone comes to. Data with another
/// hash is never given.
pub proof fn law_coalesced_fetch_equals_single_fetches(
    packs: Packs,
    decode: spec_fn(Seq<u8>) -> Option<Seq<u8>>,
    hash_of: spec_fn(Seq<u8>) -> Blake3Hash,
    entries: Seq<FetchEntry>,
    groups: Seq<FetchGroup>,
)
    requires
        groups_of(groups, entries),
        forall|g: int| 0 <= g < groups.len() ==> can_fetch((#[trigger] groups[g]).blocks@),
        forall|i: int, j: int|
            0 <= i < j < entries.len() ==> (#[trigger] entries[i]).idx != (
            #[trigger] entries[j]).idx,
    ensures
        coalesced_succeeds(packs, decode, hash_of, groups) <==> forall|i: int|
            0 <= i < entries.len() ==> single_fetch(
                packs,
                decode,
                hash_of,
                #[trigger] entries[i],
            ) is Some,
        coalesced_succeeds(packs, decode, hash_of, groups) ==> forall|idx: usize, data: Seq<u8>|
            #[trigger] coalesced_gives(packs, decode, hash_of, groups, idx, data) <==> singles_give(
                packs,
                decode,
                hash_of,
                entries,
                idx,
                data,
            ),
        forall|idx: usize, data: Seq<u8>| #[trigger]
            coalesced_gives(packs, decode, hash_of, groups, idx, data) ==> exists|i: int|
                0 <= i < entries.len() && (#[trigger] entries[i]).idx == idx && hash_of(data)
                    == entries[i].expected_hash,
{
    let ok = coalesced_succeeds(packs, decode, hash_of, groups);
    if ok {
        assert forall|i: int| 0 <= i < entries.len() implies single_fetch(
            packs,
            decode,
            hash_of,
            #[trigger] entries[i],
        ) is Some by {
            let (g, k) = lemma_in_group(entries, groups, i);
            assert(group_fetch(packs, decode, hash_of, groups[g], k) is Some);
            lemma_pieces_agree(packs, entries, groups, g, k);
        }
    }
    if forall|i: int|
        0 <= i < entries.len() ==> single_fetch(
            packs,
            decode,
            hash_of,
            #[trigger] entries[i],
        ) is Some {
        assert forall|g: int, k: int|
            0 <= g < groups.len() && 0 <= k < groups[g].blocks@.len() implies #[trigger] group_fetch(
            packs,
            decode,
            hash_of,
            groups[g],
            k,
        ) is Some by {
            let n = groups[g].blocks@.len() - 1;
            lemma_pieces_agree(packs, entries, groups, g, n);
            lemma_pieces_agree(packs, entries, groups, g, k);
            let i = choose|i: int| 0 <= i < entries.len() && entries[i] == groups[g].blocks@[n];
            let j = choose|j: int| 0 <= j < entries.len() && entries[j] == groups[g].blocks@[k];
            assert(single_fetch(packs, decode, hash_of, entries[i]) is Some);
            assert(single_fetch(packs, decode, hash_of, entries[j]) is Some);
        }
    }
    assert forall|idx: usize, data: Seq<u8>| #[trigger]
        coalesced_gives(packs, decode, hash_of, groups, idx, data) implies exists|i: int|
        0 <= i < entries.len() && (#[trigger] entries[i]).idx == idx && hash_of(data)
            == entries[i].expected_hash && single_fetch(packs, decode, hash_of, entries[i]) == Some(
            data,
        ) by {
        let (g, k) = choose|g: int, k: int|
            0 <= g < groups.len() && 0 <= k < groups[g].blocks@.len() && groups[g].blocks@[k].idx
                == idx && #[trigger] group_fetch(packs, decode, hash_of, groups[g], k) == Some(
                data,
            );
        lemma_pieces_agree(packs, entries, groups, g, k);
        let i = choose|i: int| 0 <= i < entries.len() && entries[i] == groups[g].blocks@[k];
        assert(entries[i].idx == idx);
    }
    if ok {
        assert forall|idx: usize, data: Seq<u8>| #[trigger]
            coalesced_gives(packs, decode, hash_of, groups, idx, data) <==> singles_give(
            packs,
            decode,
            hash_of,
            entries,
            idx,
            data,
        ) by {
            if singles_give(packs, decode, hash_of, entries, idx, data) {
                let i = choose|i: int|
                    0 <= i < entries.len() && (#[trigger] entries[i]).idx == idx && single_fetch(
                        packs,
                        decode,
                        hash_of,
                        entries[i],
                    ) == Some(data);
                let (g, k) = lemma_in_group(entries, groups, i);
                assert(group_fetch(packs, decode, hash_of, groups[g], k) is Some);
                lemma_pieces_agree(packs, entries, groups, g, k);
            }
        }
    }
}

/// Each block to fetch is in the group of its pack.
proof fn lemma_in_group(entries: Seq<FetchEntry>, groups: Seq<FetchGroup>, i: int) -> (at: (
    int,
    int,
))
    requires
        groups_of(groups, entries),
        0 <= i < entries.len(),
    ensures
        0 <= at.0 < groups.len(),
        0 <= at.1 < groups[at.0].blocks@.len(),
        groups[at.0].blocks@[at.1] == entries[i],
{
    let e = entries[i];
    assert(has_group(groups, e.chunk_idx, e.pack_id));
    let g = choose|g: int|
        0 <= g < groups.len() && (#[trigger] groups[g]).chunk_idx == e.chunk_idx
            && groups[g].pack_id == e.pack_id;
    lemma_grouped(entries, e.chunk_idx, e.pack_id);
    assert(entries.contains(e));
    assert(grouped(entries, e.chunk_idx, e.pack_id).contains(e));
    let blocks = groups[g].blocks@;
    let k = choose|k: int| 0 <= k < blocks.len() && blocks[k] == e;
    (g, k)
}

/// A block cut out of the request for its group is what a request for it alone gives. The
/// request for the group fails only if the one for its last block does.
proof fn lemma_pieces_agree(
    packs: Packs,
    entries: Seq<FetchEntry>,
    groups: Seq<FetchGroup>,
    g: int,
    k: int,
)
    requires
        groups_of(groups, entries),
        0 <= g < groups.len(),
        0 <= k < groups[g].blocks@.len(),
        can_fetch(groups[g].blocks@),
    ensures
        entries.contains(groups[g].blocks@[k]),
        group_piece(packs, groups[g], k) is Some ==> group_piece(packs, groups[g], k)
            == single_piece(packs, groups[g].blocks@[k]),
        plan_of(groups[g].blocks@) is Individually ==> group_piece(packs, groups[g], k)
            == single_piece(packs, groups[g].blocks@[k]),
        single_piece(packs, groups[g].blocks@.last()) is Some ==> group_piece(packs, groups[g], k)
            == single_piece(packs, groups[g].blocks@[k]),
{
    let blocks = groups[g].blocks@;
    let (c, p) = (groups[g].chunk_idx, groups[g].pack_id);
    let e = blocks[k];
    let n = blocks.len() - 1;
    lemma_grouped(entries, c, p);
    assert(grouped(entries, c, p).contains(blocks[k]));
    assert(grouped(entries, c, p).contains(blocks[n]));
    if plan_of(blocks) is Range {
        assert(in_range(e, blocks[0].offset, span(blocks)));
        if packs.contains_key((c, p)) && blocks[0].offset + span(blocks) <= packs[(c, p)].len() {
            law_range_fetch_equals_single_fetch(
                packs[(c, p)],
                e,
                blocks[0].offset,
                span(blocks),
            );
        }
    }
}

/// Fetched data is used only if it has the expected hash, and each block gets its own: what is
/// handed back belongs to the block of the read that it was fetched for. All of it is handed back
/// exactly if all of it matches.
pub proof fn law_only_matching_data_is_used(
    blocks: Vec<FetchEntry>,
    decoded: Vec<(Vec<u8>, Blake3Hash)>,
    done: Accepted,
)
    requires
        call_ensures(accept_fetched, (&blocks, decoded), done),
        decoded@.len() == blocks@.len(),
    ensures
        forall|k: int|
            0 <= k < done.verified@.len() ==> k < blocks@.len() && (#[trigger] done.verified@[k]).0
                == blocks@[k].idx && done.verified@[k].1 == blocks@[k].expected_hash
                && done.verified@[k].2@ == decoded@[k].0@ && decoded@[k].1
                == blocks@[k].expected_hash,
        done.result is Ok <==> forall|k: int|
            0 <= k < blocks@.len() ==> (#[trigger] decoded@[k]).1 == blocks@[k].expected_hash,
        done.result is Ok ==> done.verified@.len() == blocks@.len(),
        done.result matches Err(e) ==> e is HashMismatch,
{
    if done.result is Ok {
        assert forall|k: int| 0 <= k < blocks@.len() implies (#[trigger] decoded@[k]).1
            == blocks@[k].expected_hash by {
            assert(done.verified@[k].0 == blocks@[k].idx);
        }
    }
}

/// Blocks that lie apart in their packs, up to where a number of 32 bits can tell, can be fetched
/// group by group.
pub proof fn law_blocks_apart_can_be_fetched(
    entries: Vec<FetchEntry>,
    groups: Vec<FetchGroup>,
    g: int,
    fits: bool,
)
    requires
        call_ensures(group_fetches, (&entries,), groups),
        0 <= g < groups@.len(),
        call_ensures(can_fetch_group, (&groups@[g].blocks,), fits),
        forall|i: int|
            0 <= i < entries@.len() ==> (#[trigger] entries@[i]).offset + entries@[i].comp_len
                <= 0xFFFF_FFFF,
        forall|i: int, j: int|
            0 <= i < j < entries@.len() ==> ((#[trigger] entries@[i]).comp_len > 0 && (
            #[trigger] entries@[j]).comp_len > 0 && (entries@[i].offset + entries@[i].comp_len
                <= entries@[j].offset || entries@[j].offset + entries@[j].comp_len
                <= entries@[i].offset)),
    ensures
        fits,
{
    assert(disjoint(entries@)) by {
        assert forall|i: int, j: int|
            0 <= i < j < entries@.len() && of_pack(
                #[trigger] entries@[j],
                (#[trigger] entries@[i]).chunk_idx,
                entries@[i].pack_id,
            ) implies apart(entries@[i], entries@[j]) by {}
    }
    law_groups_can_be_fetched(entries@, groups@, g);
}

} // verus!
