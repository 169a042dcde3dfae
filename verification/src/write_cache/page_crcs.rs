//! Checksums of the pages of each block, captured when the data is written and
//! compared when it is flushed.

use std::collections::HashMap;
use vstd::prelude::*;
use vstd::slice::slice_subrange;
use crate::checksum::crc32_iscsi_of;
use crate::write_cache::geometry::{
    block_start, first_block, last_block, law_range_touches_blocks, lemma_range_blocks,
};

verus! {

/// Bytes in a page: the unit that a checksum covers.
pub const PAGE_SIZE: u64 = 4096;

#[verifier::external_type_specification]
#[verifier::external_body]
#[verifier::reject_recursive_types(K)]
#[verifier::reject_recursive_types(V)]
#[verifier::reject_recursive_types(S)]
pub struct ExDashMap<K, V, S>(dashmap::DashMap<K, V, S>);

/// The checksums that a map holds, by block number.
pub uninterp spec fn crc_entries(map: dashmap::DashMap<u32, Vec<u32>>) -> Map<u32, Seq<u32>>;

/// No checksums at all.
pub open spec fn no_crcs() -> Map<u32, Seq<u32>> {
    Map::empty()
}

/// `DashMap::new`: an empty map.
#[verifier::external_body]
fn crc_map_new() -> (map: dashmap::DashMap<u32, Vec<u32>>)
    ensures
        crc_entries(map) == no_crcs(),
{
    dashmap::DashMap::new()
}

/// `DashMap::get`: a copy of the value under `key`, if there is one.
#[verifier::external_body]
fn crc_map_get(map: &dashmap::DashMap<u32, Vec<u32>>, key: u32) -> (value: Option<Vec<u32>>)
    ensures
        match value {
            Some(crcs) => crc_entries(*map).contains_key(key) && crcs@ == crc_entries(*map)[key],
            None => !crc_entries(*map).contains_key(key),
        },
{
    map.get(&key).map(|entry| entry.value().clone())
}

/// `DashMap::insert`: `value` stands under `key` afterwards, in place of what
/// was there.
#[verifier::external_body]
fn crc_map_insert(map: &mut dashmap::DashMap<u32, Vec<u32>>, key: u32, value: Vec<u32>)
    ensures
        crc_entries(*final(map)) == crc_entries(*old(map)).insert(key, value@),
{
    map.insert(key, value);
}

/// `DashMap::len`: the number of keys.
#[verifier::external_body]
fn crc_map_len(map: &dashmap::DashMap<u32, Vec<u32>>) -> (n: usize)
    ensures
        n == crc_entries(*map).dom().len(),
{
    map.len()
}

/// `DashMap::retain` with a predicate that keeps nothing: every entry is
/// visited once and removed. The order of the visits is left open.
#[verifier::external_body]
fn crc_map_drain(map: &mut dashmap::DashMap<u32, Vec<u32>>) -> (entries: Vec<(u32, Vec<u32>)>)
    ensures
        crc_entries(*final(map)) == no_crcs(),
        forall|i: int|
            0 <= i < entries@.len() ==> crc_entries(*old(map)).contains_key(
                (#[trigger] entries@[i]).0,
            ) && entries@[i].1@ == crc_entries(*old(map))[entries@[i].0],
        forall|key: u32| #[trigger]
            crc_entries(*old(map)).contains_key(key) ==> exists|i: int|
                0 <= i < entries@.len() && (#[trigger] entries@[i]).0 == key,
        forall|i: int, j: int|
            0 <= i < j < entries@.len() ==> (#[trigger] entries@[i]).0 != (
            #[trigger] entries@[j]).0,
{
    let mut entries = Vec::new();
    map.retain(|key, value| {
        entries.push((*key, std::mem::take(value)));
        false
    });
    entries
}

/// Page checksums of the blocks written since the last flush.
pub struct PageCrcs {
    pages_per_block: usize,
    map: dashmap::DashMap<u32, Vec<u32>>,
}

impl View for PageCrcs {
    type V = Map<u32, Seq<u32>>;

    closed spec fn view(&self) -> Map<u32, Seq<u32>> {
        crc_entries(self.map)
    }
}

/// What a write of `len` bytes at `offset` makes of the checksum of one page:
/// `covered` if the write covers the page, zero (unknown) if it covers a part
/// of it, and what was there before if it does not touch it.
pub open spec fn page_crc_after(
    before: u32,
    page_start: int,
    offset: int,
    len: int,
    covered: u32,
) -> u32 {
    if offset <= page_start && page_start + PAGE_SIZE <= offset + len {
        covered
    } else if page_start < offset + len && offset < page_start + PAGE_SIZE {
        0
    } else {
        before
    }
}

/// The page checksums of a block before it is written again: all unknown if
/// there are none.
pub open spec fn crcs_before(entries: Map<u32, Seq<u32>>, block: int, pages: nat) -> Seq<u32> {
    if entries.contains_key(block as u32) {
        entries[block as u32]
    } else {
        Seq::new(pages, |p: int| 0u32)
    }
}

/// The page checksums of one block after `data` was written at `offset`.
pub open spec fn block_crcs_after(
    before: Seq<u32>,
    block: int,
    block_size: int,
    offset: int,
    data: Seq<u8>,
) -> Seq<u32> {
    Seq::new(
        before.len(),
        |p: int|
            {
                let start = block_start(block, block_size) + p * PAGE_SIZE;
                page_crc_after(
                    before[p],
                    start,
                    offset,
                    data.len() as int,
                    crc32_iscsi_of(data.subrange(start - offset, start - offset + PAGE_SIZE)),
                )
            },
    )
}

/// The page checksums of one block after `len` zero bytes were written at
/// `offset`.
pub open spec fn block_zero_crcs_after(
    before: Seq<u32>,
    block: int,
    block_size: int,
    offset: int,
    len: int,
) -> Seq<u32> {
    Seq::new(
        before.len(),
        |p: int|
            page_crc_after(
                before[p],
                block_start(block, block_size) + p * PAGE_SIZE,
                offset,
                len,
                crc32_iscsi_of(zero_page()),
            ),
    )
}

/// A page of zeros.
pub open spec fn zero_page() -> Seq<u8> {
    Seq::new(PAGE_SIZE as nat, |i: int| 0u8)
}

/// Whether the range of `len` bytes at `offset` touches a block.
pub open spec fn touches(block: int, block_size: int, offset: int, len: int) -> bool {
    first_block(offset, block_size) <= block <= last_block(offset, len, block_size)
}

/// The checksums after `data` was written at `offset`.
pub open spec fn captured(
    before: Map<u32, Seq<u32>>,
    pages: nat,
    block_size: int,
    offset: int,
    data: Seq<u8>,
) -> Map<u32, Seq<u32>> {
    Map::new(
        |key: u32|
            before.contains_key(key) || touches(
                key as int,
                block_size,
                offset,
                data.len() as int,
            ),
        |key: u32|
            if touches(key as int, block_size, offset, data.len() as int) {
                block_crcs_after(
                    crcs_before(before, key as int, pages),
                    key as int,
                    block_size,
                    offset,
                    data,
                )
            } else {
                before[key]
            },
    )
}

/// The checksums after `len` zero bytes were written at `offset`.
pub open spec fn captured_zeros(
    before: Map<u32, Seq<u32>>,
    pages: nat,
    block_size: int,
    offset: int,
    len: int,
) -> Map<u32, Seq<u32>> {
    Map::new(
        |key: u32| before.contains_key(key) || touches(key as int, block_size, offset, len),
        |key: u32|
            if touches(key as int, block_size, offset, len) {
                block_zero_crcs_after(
                    crcs_before(before, key as int, pages),
                    key as int,
                    block_size,
                    offset,
                    len,
                )
            } else {
                before[key]
            },
    )
}

/// Whether `drained` holds, by block index, exactly the checksums in `entries`.
pub open spec fn drained_from(
    drained: Map<usize, Vec<u32>>,
    entries: Map<u32, Seq<u32>>,
) -> bool {
    &&& forall|block: usize| #[trigger]
        drained.contains_key(block) <==> block <= u32::MAX && entries.contains_key(block as u32)
    &&& forall|block: usize| #[trigger]
        drained.contains_key(block) ==> drained[block]@ == entries[block as u32]
}

/// Whether every known checksum of a block is that of the page it stands for.
pub open spec fn pages_match(block: Seq<u8>, crcs: Seq<u32>) -> bool {
    forall|p: int|
        0 <= p < crcs.len() && #[trigger] crcs[p] != 0 ==> crcs[p] == crc32_iscsi_of(
            block.subrange(p * PAGE_SIZE, p * PAGE_SIZE + PAGE_SIZE),
        )
}

/// Compares the pages of a block with the checksums captured when they were
/// written. A checksum of zero is unknown and not compared.
pub fn verify_page_crcs(block: &[u8], crcs: &Vec<u32>) -> (ok: bool)
    requires
        crcs@.len() * PAGE_SIZE <= block@.len(),
    ensures
        ok == pages_match(block@, crcs@),
{
    let n: usize = crcs.len();
    let len: usize = block.len();
    let mut page: usize = 0;
    while page < n
        invariant
            n == crcs@.len(),
            len == block@.len(),
            n * PAGE_SIZE <= len,
            page <= n,
            forall|p: int|
                0 <= p < page && #[trigger] crcs@[p] != 0 ==> crcs@[p] == crc32_iscsi_of(
                    block@.subrange(p * PAGE_SIZE, p * PAGE_SIZE + PAGE_SIZE),
                ),
        decreases n - page,
    {
        let stored: u32 = crcs[page];
        if stored != 0 {
            let from: usize = page * PAGE_SIZE as usize;
            let bytes = slice_subrange(block, from, from + PAGE_SIZE as usize);
            if crc_fast::crc32_iscsi(bytes) != stored {
                assert(crcs@[page as int] != 0);
                return false;
            }
        }
        page = page + 1;
    }
    true
}

/// What a block holds after `data` was written at byte `offset` of the device.
pub open spec fn block_after_write(
    before: Seq<u8>,
    block: int,
    block_size: int,
    offset: int,
    data: Seq<u8>,
) -> Seq<u8> {
    Seq::new(
        before.len(),
        |i: int|
            {
                let at = block_start(block, block_size) + i;
                if offset <= at < offset + data.len() {
                    data[at - offset]
                } else {
                    before[i]
                }
            },
    )
}

/// A write keeps checksums and data in step: where the checksums of a block
/// match what it holds, those captured by a write match what it holds after
/// the write. A flush of undamaged data therefore never finds a mismatch.
pub proof fn law_captured_crcs_match(
    before: Seq<u8>,
    crcs: Seq<u32>,
    block: int,
    block_size: int,
    offset: int,
    data: Seq<u8>,
)
    requires
        block_size > 0,
        before.len() == block_size,
        crcs.len() * PAGE_SIZE <= block_size,
        pages_match(before, crcs),
    ensures
        pages_match(
            block_after_write(before, block, block_size, offset, data),
            block_crcs_after(crcs, block, block_size, offset, data),
        ),
{
    let after = block_after_write(before, block, block_size, offset, data);
    let crcs_after = block_crcs_after(crcs, block, block_size, offset, data);
    assert forall|p: int| 0 <= p < crcs_after.len() && #[trigger] crcs_after[p] != 0 implies
        crcs_after[p] == crc32_iscsi_of(
        after.subrange(p * PAGE_SIZE, p * PAGE_SIZE + PAGE_SIZE),
    ) by {
        let start = block_start(block, block_size) + p * PAGE_SIZE;
        let page = after.subrange(p * PAGE_SIZE, p * PAGE_SIZE + PAGE_SIZE);
        if offset <= start && start + PAGE_SIZE <= offset + data.len() {
            assert(page =~= data.subrange(start - offset, start - offset + PAGE_SIZE));
        } else if start < offset + data.len() && offset < start + PAGE_SIZE {
        } else {
            assert(crcs[p] != 0);
            assert(page =~= before.subrange(p * PAGE_SIZE, p * PAGE_SIZE + PAGE_SIZE));
        }
    }
}

/// Zeroing a range leaves the same checksums as writing that many zero bytes.
pub proof fn law_zero_capture_is_write_of_zeros(
    before: Map<u32, Seq<u32>>,
    pages: nat,
    block_size: int,
    offset: int,
    len: nat,
)
    requires
        block_size > 0,
    ensures
        captured_zeros(before, pages, block_size, offset, len as int) == captured(
            before,
            pages,
            block_size,
            offset,
            Seq::new(len, |i: int| 0u8),
        ),
{
    let zeros = Seq::new(len, |i: int| 0u8);
    let a = captured_zeros(before, pages, block_size, offset, len as int);
    let b = captured(before, pages, block_size, offset, zeros);
    assert forall|key: u32| #[trigger] a.contains_key(key) implies a[key] == b[key] by {
        let crcs = crcs_before(before, key as int, pages);
        let x = block_zero_crcs_after(crcs, key as int, block_size, offset, len as int);
        let y = block_crcs_after(crcs, key as int, block_size, offset, zeros);
        assert forall|p: int| 0 <= p < crcs.len() implies #[trigger] x[p] == y[p] by {
            let start = block_start(key as int, block_size) + p * PAGE_SIZE;
            if offset <= start && start + PAGE_SIZE <= offset + len {
                assert(zeros.subrange(start - offset, start - offset + PAGE_SIZE) =~= zero_page());
            }
        }
        assert(x =~= y);
    }
    assert(a =~= b);
}

impl PageCrcs {
    /// Every entry holds one checksum per page of the block.
    pub closed spec fn wf(&self) -> bool {
        forall|key: u32| #[trigger]
            self@.contains_key(key) ==> self@[key].len() == self.pages_per_block
    }

    /// Number of whole pages in a block.
    pub closed spec fn pages(&self) -> nat {
        self.pages_per_block as nat
    }

    /// An entry has a checksum for each whole page.
    pub(crate) proof fn lemma_lengths(&self, block: u32)
        requires
            self.wf(),
        ensures
            self@.contains_key(block) ==> self@[block].len() == self.pages(),
    {
    }

    /// No checksums, for blocks of `block_size` bytes.
    pub fn new(block_size: usize) -> (crcs: PageCrcs)
        ensures
            crcs.wf(),
            crcs@ == no_crcs(),
            crcs.pages() == block_size as int / PAGE_SIZE as int,
    {
        PageCrcs { pages_per_block: block_size / PAGE_SIZE as usize, map: crc_map_new() }
    }

    /// Number of blocks with checksums.
    pub fn len(&self) -> (n: usize)
        ensures
            n == self@.dom().len(),
    {
        crc_map_len(&self.map)
    }

    fn block_crcs(&self, block: u64) -> (crcs: Vec<u32>)
        requires
            self.wf(),
            block <= u32::MAX,
        ensures
            crcs@ == crcs_before(self@, block as int, self.pages()),
            crcs@.len() == self.pages(),
    {
        match crc_map_get(&self.map, block as u32) {
            Some(crcs) => {
                assert(self@.contains_key(block as u32));
                crcs
            },
            None => vec![0u32; self.pages_per_block],
        }
    }

    /// Record the page checksums of `data`, written at byte `offset`.
    ///
    /// Each page that the write covers gets the checksum of its bytes; one that
    /// it covers in part is marked unknown.
    pub fn capture_page_crcs(&mut self, block_size: usize, offset: u64, data: &[u8])
        requires
            old(self).wf(),
            block_size > 0,
            old(self).pages() == block_size as int / PAGE_SIZE as int,
            data@.len() > 0,
            offset + data@.len() <= u64::MAX,
            last_block(offset as int, data@.len() as int, block_size as int) <= u32::MAX,
        ensures
            final(self).wf(),
            final(self).pages() == old(self).pages(),
            final(self)@ == captured(
                old(self)@,
                old(self).pages(),
                block_size as int,
                offset as int,
                data@,
            ),
    {
        let bs: u64 = block_size as u64;
        let end: u64 = offset + data.len() as u64;
        let start_block: u64 = offset / bs;
        let end_block: u64 = (end - 1) / bs;
        proof {
            lemma_range_blocks(offset as int, data@.len() as int, bs as int, u64::MAX as int);
        }
        let ghost before = self@;
        let ghost pages = self.pages();
        let mut block: u64 = start_block;
        while block <= end_block
            invariant
                self.wf(),
                self.pages() == pages,
                pages == block_size as int / PAGE_SIZE as int,
                bs == block_size,
                bs > 0,
                end == offset + data@.len(),
                0 < data@.len() <= usize::MAX,
                start_block == first_block(offset as int, bs as int),
                end_block == last_block(offset as int, data@.len() as int, bs as int),
                end_block <= u32::MAX,
                block_start(end_block as int, bs as int) < end,
                start_block <= block <= end_block + 1,
                forall|key: u32| #[trigger]
                    before.contains_key(key) ==> before[key].len() == pages,
                forall|key: u32| #[trigger]
                    self@.contains_key(key) == (before.contains_key(key) || start_block <= key
                        < block),
                forall|key: u32| #[trigger]
                    self@.contains_key(key) ==> self@[key] == if start_block <= key < block {
                        block_crcs_after(
                            crcs_before(before, key as int, pages),
                            key as int,
                            bs as int,
                            offset as int,
                            data@,
                        )
                    } else {
                        before[key]
                    },
            decreases end_block + 1 - block,
        {
            assert(block * bs <= end_block * bs) by (nonlinear_arith)
                requires
                    block <= end_block,
            ;
            let start: u64 = block * bs;
            let mut crcs: Vec<u32> = self.block_crcs(block);
            let ghost crcs0 = crcs@;
            assert(crcs0 == crcs_before(before, block as int, pages));
            let n: usize = crcs.len();
            let mut page: usize = 0;
            while page < n
                invariant
                    page <= n,
                    n == crcs@.len(),
                    n == crcs0.len(),
                    n * PAGE_SIZE <= bs,
                    start == block_start(block as int, bs as int),
                    start < end,
                    end == offset + data@.len(),
                    data@.len() <= usize::MAX,
                    forall|p: int|
                        0 <= p < page ==> crcs@[p] == block_crcs_after(
                            crcs0,
                            block as int,
                            bs as int,
                            offset as int,
                            data@,
                        )[p],
                    forall|p: int| page <= p < n ==> crcs@[p] == crcs0[p],
                decreases n - page,
            {
                let within: u64 = page as u64 * PAGE_SIZE;
                // A page past the end of the range is not touched.
                if within < end - start {
                    let page_start: u64 = start + within;
                    if offset <= page_start && end - page_start >= PAGE_SIZE {
                        let from: usize = (page_start - offset) as usize;
                        let bytes = slice_subrange(data, from, from + PAGE_SIZE as usize);
                        crcs.set(page, crc_fast::crc32_iscsi(bytes));
                    } else if offset < page_start || offset - page_start < PAGE_SIZE {
                        crcs.set(page, 0);
                    }
                }
                page = page + 1;
            }
            assert(crcs@ =~= block_crcs_after(crcs0, block as int, bs as int, offset as int, data@));
            crc_map_insert(&mut self.map, block as u32, crcs);
            block = block + 1;
        }
        assert(self@ =~= captured(before, pages, bs as int, offset as int, data@));
    }

    /// Record the page checksums of `len` zero bytes, written at byte `offset`.
    pub fn capture_zero_page_crcs(&mut self, block_size: usize, offset: u64, len: u64)
        requires
            old(self).wf(),
            block_size > 0,
            old(self).pages() == block_size as int / PAGE_SIZE as int,
            len > 0,
            offset + len <= u64::MAX,
            last_block(offset as int, len as int, block_size as int) <= u32::MAX,
        ensures
            final(self).wf(),
            final(self).pages() == old(self).pages(),
            final(self)@ == captured_zeros(
                old(self)@,
                old(self).pages(),
                block_size as int,
                offset as int,
                len as int,
            ),
    {
        let zeros: Vec<u8> = vec![0u8; PAGE_SIZE as usize];
        assert(zeros@ =~= zero_page());
        let zero_page_crc: u32 = crc_fast::crc32_iscsi(zeros.as_slice());
        let bs: u64 = block_size as u64;
        let end: u64 = offset + len;
        let start_block: u64 = offset / bs;
        let end_block: u64 = (end - 1) / bs;
        proof {
            lemma_range_blocks(offset as int, len as int, bs as int, u64::MAX as int);
        }
        let ghost before = self@;
        let ghost pages = self.pages();
        let mut block: u64 = start_block;
        while block <= end_block
            invariant
                self.wf(),
                self.pages() == pages,
                pages == block_size as int / PAGE_SIZE as int,
                bs == block_size,
                bs > 0,
                len > 0,
                end == offset + len,
                zero_page_crc == crc32_iscsi_of(zero_page()),
                start_block == first_block(offset as int, bs as int),
                end_block == last_block(offset as int, len as int, bs as int),
                end_block <= u32::MAX,
                block_start(end_block as int, bs as int) < end,
                start_block <= block <= end_block + 1,
                forall|key: u32| #[trigger]
                    before.contains_key(key) ==> before[key].len() == pages,
                forall|key: u32| #[trigger]
                    self@.contains_key(key) == (before.contains_key(key) || start_block <= key
                        < block),
                forall|key: u32| #[trigger]
                    self@.contains_key(key) ==> self@[key] == if start_block <= key < block {
                        block_zero_crcs_after(
                            crcs_before(before, key as int, pages),
                            key as int,
                            bs as int,
                            offset as int,
                            len as int,
                        )
                    } else {
                        before[key]
                    },
            decreases end_block + 1 - block,
        {
            assert(block * bs <= end_block * bs) by (nonlinear_arith)
                requires
                    block <= end_block,
            ;
            let start: u64 = block * bs;
            let mut crcs: Vec<u32> = self.block_crcs(block);
            let ghost crcs0 = crcs@;
            assert(crcs0 == crcs_before(before, block as int, pages));
            let n: usize = crcs.len();
            let mut page: usize = 0;
            while page < n
                invariant
                    page <= n,
                    n == crcs@.len(),
                    n == crcs0.len(),
                    n * PAGE_SIZE <= bs,
                    start == block_start(block as int, bs as int),
                    start < end,
                    end == offset + len,
                    zero_page_crc == crc32_iscsi_of(zero_page()),
                    forall|p: int|
                        0 <= p < page ==> crcs@[p] == block_zero_crcs_after(
                            crcs0,
                            block as int,
                            bs as int,
                            offset as int,
                            len as int,
                        )[p],
                    forall|p: int| page <= p < n ==> crcs@[p] == crcs0[p],
                decreases n - page,
            {
                let within: u64 = page as u64 * PAGE_SIZE;
                if within < end - start {
                    let page_start: u64 = start + within;
                    if offset <= page_start && end - page_start >= PAGE_SIZE {
                        crcs.set(page, zero_page_crc);
                    } else if offset < page_start || offset - page_start < PAGE_SIZE {
                        crcs.set(page, 0);
                    }
                }
                page = page + 1;
            }
            assert(crcs@ =~= block_zero_crcs_after(
                crcs0,
                block as int,
                bs as int,
                offset as int,
                len as int,
            ));
            crc_map_insert(&mut self.map, block as u32, crcs);
            block = block + 1;
        }
        assert(self@ =~= captured_zeros(before, pages, bs as int, offset as int, len as int));
    }

    /// Drain the checksums captured when the blocks were written.
    ///
    /// Removes all entries, returning them for verification.
    pub fn drain_page_crcs(&mut self) -> (drained: HashMap<usize, Vec<u32>>)
        requires
            old(self).wf(),
        ensures
            final(self).wf(),
            final(self).pages() == old(self).pages(),
            final(self)@ == no_crcs(),
            drained_from(drained@, old(self)@),
            forall|block: usize| #[trigger]
                drained@.contains_key(block) ==> drained@[block]@.len() == old(self).pages(),
    {
        broadcast use vstd::std_specs::hash::group_hash_axioms;

        let mut entries: Vec<(u32, Vec<u32>)> = crc_map_drain(&mut self.map);
        let ghost all = entries@;
        let mut drained: HashMap<usize, Vec<u32>> = HashMap::with_capacity(entries.len());
        while entries.len() > 0
            invariant
                entries@.len() <= all.len(),
                entries@ == all.take(entries@.len() as int),
                forall|i: int, j: int|
                    0 <= i < j < all.len() ==> (#[trigger] all[i]).0 != (#[trigger] all[j]).0,
                forall|block: usize| #[trigger]
                    drained@.contains_key(block) ==> exists|i: int|
                        entries@.len() <= i < all.len() && (#[trigger] all[i]).0 == block
                            && drained@[block] == all[i].1,
                forall|i: int|
                    entries@.len() <= i < all.len() ==> drained@.contains_key(
                        (#[trigger] all[i]).0 as usize,
                    ),
            decreases entries@.len(),
        {
            let last = entries.pop();
            if let Some((key, crcs)) = last {
                assert(all[entries@.len() as int] == (key, crcs));
                drained.insert(key as usize, crcs);
            }
        }
        proof {
            assert forall|block: usize| #[trigger] drained@.contains_key(block) <==> block
                <= u32::MAX && old(self)@.contains_key(block as u32) by {
                if block <= u32::MAX && old(self)@.contains_key(block as u32) {
                    let i = choose|i: int| 0 <= i < all.len() && (#[trigger] all[i]).0 == block as u32;
                    assert(drained@.contains_key(all[i].0 as usize));
                }
            }
        }
        drained
    }
}

/// Damage is found: a block passes exactly if every page with a known checksum has that
/// checksum. A checksum of 0 is not known.
pub proof fn law_damage_is_found(block: &[u8], crcs: Vec<u32>, ok: bool)
    requires
        call_ensures(verify_page_crcs, (block, &crcs), ok),
    ensures
        ok <==> forall|p: int|
            0 <= p < crcs@.len() && #[trigger] crcs@[p] != 0 ==> crc32_iscsi_of(
                block@.subrange(p * 4096, (p + 1) * 4096),
            ) == crcs@[p],
{
    assert forall|p: int| 0 <= p < crcs@.len() implies #[trigger] block@.subrange(
        p * 4096,
        (p + 1) * 4096,
    ) == block@.subrange(p * PAGE_SIZE, p * PAGE_SIZE + PAGE_SIZE) by {}
}

/// What is known of a page after a write: its checksum if the write covers all of it, nothing
/// if the write covers a part of it, and what was known before if the write does not touch it.
/// Nothing is known of a block that has no checksums. Blocks that the write does not touch
/// keep what they have.
pub proof fn law_written_pages_are_known(
    crcs: &mut PageCrcs,
    block_size: usize,
    offset: u64,
    data: &[u8],
    block: u32,
    p: int,
)
    requires
        call_ensures(PageCrcs::capture_page_crcs, (crcs, block_size, offset, data), ()),
        mut_ref_current(crcs).wf(),
        mut_ref_current(crcs).pages() == block_size as int / 4096,
        block_size > 0,
        data@.len() > 0,
        0 <= p < block_size as int / 4096,
    ensures
        ({
            let before = mut_ref_current(crcs)@;
            let after = mut_ref_future(crcs)@;
            let end = offset + data@.len();
            let start = block * block_size + p * 4096;
            let touched = block * block_size < end && offset < block * block_size + block_size;
            &&& touched && offset <= start && start + 4096 <= end ==> after.contains_key(block)
                && after[block][p] == crc32_iscsi_of(
                data@.subrange(start - offset, start - offset + 4096),
            )
            &&& touched && start < end && offset < start + 4096 && !(offset <= start && start + 4096
                <= end) ==> after.contains_key(block) && after[block][p] == 0
            &&& touched && !(start < end && offset < start + 4096) ==> after.contains_key(block)
                && after[block][p] == if before.contains_key(block) {
                before[block][p]
            } else {
                0
            }
            &&& !touched ==> after.contains_key(block) == before.contains_key(block) && (
            before.contains_key(block) ==> after[block] == before[block])
        }),
{
    law_range_touches_blocks(
        offset as int,
        data@.len() as int,
        block_size as int,
        block as int,
    );
    let before = mut_ref_current(crcs)@;
    if before.contains_key(block) {
        assert(before[block].len() == block_size as int / 4096);
    }
}

/// What is known of a page after zeros were written: the checksum of a page of zeros if they
/// cover all of it, nothing if they cover a part of it, and what was known before if they do
/// not touch it.
pub proof fn law_zeroed_pages_are_known(
    crcs: &mut PageCrcs,
    block_size: usize,
    offset: u64,
    len: u64,
    block: u32,
    p: int,
)
    requires
        call_ensures(PageCrcs::capture_zero_page_crcs, (crcs, block_size, offset, len), ()),
        mut_ref_current(crcs).wf(),
        mut_ref_current(crcs).pages() == block_size as int / 4096,
        block_size > 0,
        len > 0,
        0 <= p < block_size as int / 4096,
    ensures
        ({
            let before = mut_ref_current(crcs)@;
            let after = mut_ref_future(crcs)@;
            let end = offset + len;
            let start = block * block_size + p * 4096;
            let touched = block * block_size < end && offset < block * block_size + block_size;
            &&& touched && offset <= start && start + 4096 <= end ==> after.contains_key(block)
                && after[block][p] == crc32_iscsi_of(Seq::new(4096, |i: int| 0u8))
            &&& touched && start < end && offset < start + 4096 && !(offset <= start && start + 4096
                <= end) ==> after.contains_key(block) && after[block][p] == 0
            &&& touched && !(start < end && offset < start + 4096) ==> after.contains_key(block)
                && after[block][p] == if before.contains_key(block) {
                before[block][p]
            } else {
                0
            }
            &&& !touched ==> after.contains_key(block) == before.contains_key(block) && (
            before.contains_key(block) ==> after[block] == before[block])
        }),
{
    law_range_touches_blocks(offset as int, len as int, block_size as int, block as int);
    assert(zero_page() =~= Seq::new(4096, |i: int| 0u8));
    let before = mut_ref_current(crcs)@;
    if before.contains_key(block) {
        assert(before[block].len() == block_size as int / 4096);
    }
}

/// A drain hands over every checksum that was there, under the number of its block, and
/// leaves none.
pub proof fn law_drain_takes_all(
    crcs: &mut PageCrcs,
    drained: HashMap<usize, Vec<u32>>,
    block: u32,
)
    requires
        call_ensures(PageCrcs::drain_page_crcs, (crcs,), drained),
    ensures
        drained@.contains_key(block as usize) == mut_ref_current(crcs)@.contains_key(block),
        drained@.contains_key(block as usize) ==> drained@[block as usize]@ == mut_ref_current(
            crcs,
        )@[block],
        !mut_ref_future(crcs)@.contains_key(block),
{
}

} // verus!
