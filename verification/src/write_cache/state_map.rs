//! Per-block states, kept in a sparse page table.

use vstd::prelude::*;

verus! {

/// The byte that stands for each state of a block.
pub struct SparseBlockState {}

impl SparseBlockState {
    /// The block has no local copy: its data, if any, is in object storage.
    pub const NOT_PRESENT: u8 = 0;

    /// The block is claimed by a writer whose data has not been committed yet.
    pub const CLEAN: u8 = 1;

    /// The active data file holds the newest data of the block.
    pub const DIRTY: u8 = 2;

    /// A flush has claimed the block: the flushing file holds its data.
    pub const SYNCING: u8 = 3;
}

/// What `transition_to_dirty` found.
#[derive(Clone, Copy, Debug, PartialEq, Eq, Structural)]
pub enum DirtyTransition {
    AlreadyDirty,
    FromCleanOrNotPresent,
    FromSyncing,
}

/// Number of block states in one page of the table.
pub const STATE_PAGE_LEN: usize = 4096;

/// One state byte per block. A page of states is allocated when the first
/// block in it leaves `NOT_PRESENT`, so an idle device costs one pointer per
/// page.
pub struct SparseStateMap {
    num_blocks: usize,
    pages: Vec<Option<Vec<u8>>>,
}

/// The number of blocks whose state is `state`.
pub open spec fn count_state(states: Seq<u8>, state: u8) -> nat
    decreases states.len(),
{
    if states.len() == 0 {
        0
    } else {
        count_state(states.drop_last(), state) + if states.last() == state {
            1nat
        } else {
            0nat
        }
    }
}

/// The present blocks among the first `n`, in ascending order, each with its
/// state.
pub open spec fn present_entries(states: Seq<u8>, n: nat) -> Seq<(usize, u8)>
    decreases n,
{
    if n == 0 {
        Seq::empty()
    } else {
        let before = present_entries(states, (n - 1) as nat);
        if states[n - 1] != SparseBlockState::NOT_PRESENT {
            before.push(((n - 1) as usize, states[n - 1]))
        } else {
            before
        }
    }
}

/// The states after a compare-and-swap of block `idx`.
pub open spec fn swapped(states: Seq<u8>, idx: int, from: u8, to: u8) -> Seq<u8> {
    if states[idx] == from {
        states.update(idx, to)
    } else {
        states
    }
}

/// Where a block that is made dirty comes from.
pub open spec fn dirty_transition(state: u8) -> DirtyTransition {
    if state == SparseBlockState::DIRTY {
        DirtyTransition::AlreadyDirty
    } else if state == SparseBlockState::SYNCING {
        DirtyTransition::FromSyncing
    } else {
        DirtyTransition::FromCleanOrNotPresent
    }
}

/// How one change of state moves a count.
pub proof fn lemma_count_update(states: Seq<u8>, idx: int, to: u8, state: u8)
    requires
        0 <= idx < states.len(),
    ensures
        count_state(states.update(idx, to), state) == count_state(states, state) - (if states[idx]
            == state {
            1int
        } else {
            0int
        }) + (if to == state {
            1int
        } else {
            0int
        }),
    decreases states.len(),
{
    let after = states.update(idx, to);
    if idx == states.len() - 1 {
        assert(after.drop_last() =~= states.drop_last());
    } else {
        assert(after.drop_last() =~= states.drop_last().update(idx, to));
        lemma_count_update(states.drop_last(), idx, to, state);
    }
}

/// A count is no larger than the number of blocks, and positive where some
/// block has the state.
pub proof fn lemma_count_bounds(states: Seq<u8>, state: u8)
    ensures
        count_state(states, state) <= states.len(),
        count_state(states, state) > 0 <==> states.contains(state),
    decreases states.len(),
{
    if states.len() > 0 {
        lemma_count_bounds(states.drop_last(), state);
        let rest = states.drop_last();
        if rest.contains(state) {
            let i = choose|i: int| 0 <= i < rest.len() && rest[i] == state;
            assert(states[i] == state);
        }
        if states.contains(state) {
            let i = choose|i: int| 0 <= i < states.len() && states[i] == state;
            if i < states.len() - 1 {
                assert(rest[i] == state);
            }
        }
        assert(states.last() == states[states.len() - 1]);
    }
}

impl View for SparseStateMap {
    type V = Seq<u8>;

    closed spec fn view(&self) -> Seq<u8> {
        Seq::new(self.num_blocks as nat, |i: int| self.state_at(i))
    }
}

impl SparseStateMap {
    spec fn state_at(&self, i: int) -> u8 {
        match self.pages@[i / STATE_PAGE_LEN as int] {
            Some(page) => page@[i % STATE_PAGE_LEN as int],
            None => SparseBlockState::NOT_PRESENT,
        }
    }

    /// Every block falls in a page of the table, and every allocated page has
    /// its full length.
    pub closed spec fn wf(&self) -> bool {
        &&& self.num_blocks <= self.pages@.len() * STATE_PAGE_LEN
        &&& forall|p: int|
            0 <= p < self.pages@.len() && (#[trigger] self.pages@[p]) is Some
                ==> self.pages@[p]->Some_0@.len() == STATE_PAGE_LEN
    }

    /// A map of `num_blocks` blocks, none of them present.
    pub fn new(num_blocks: usize) -> (map: SparseStateMap)
        ensures
            map.wf(),
            map@ == Seq::new(num_blocks as nat, |i: int| SparseBlockState::NOT_PRESENT),
    {
        let num_pages: usize = num_blocks / STATE_PAGE_LEN + 1;
        let mut pages: Vec<Option<Vec<u8>>> = Vec::new();
        let mut i: usize = 0;
        while i < num_pages
            invariant
                i <= num_pages,
                pages@.len() == i,
                forall|p: int| 0 <= p < i ==> (#[trigger] pages@[p]) is None,
            decreases num_pages - i,
        {
            pages.push(None);
            i = i + 1;
        }
        let map = SparseStateMap { num_blocks, pages };
        assert(map@ =~= Seq::new(num_blocks as nat, |i: int| SparseBlockState::NOT_PRESENT));
        map
    }

    /// Number of blocks of the device.
    pub fn len(&self) -> (n: usize)
        ensures
            n == self@.len(),
    {
        self.num_blocks
    }

    /// The state of block `idx`.
    pub fn get(&self, idx: usize) -> (state: u8)
        requires
            self.wf(),
            idx < self@.len(),
        ensures
            state == self@[idx as int],
    {
        match &self.pages[idx / STATE_PAGE_LEN] {
            Some(page) => page[idx % STATE_PAGE_LEN],
            None => SparseBlockState::NOT_PRESENT,
        }
    }

    fn set(&mut self, idx: usize, state: u8)
        requires
            old(self).wf(),
            idx < old(self)@.len(),
        ensures
            final(self).wf(),
            final(self)@ == old(self)@.update(idx as int, state),
    {
        let page_no: usize = idx / STATE_PAGE_LEN;
        let slot: usize = idx % STATE_PAGE_LEN;
        let mut page: Vec<u8> = match self.pages[page_no].take() {
            Some(page) => page,
            None => vec![SparseBlockState::NOT_PRESENT; STATE_PAGE_LEN],
        };
        page.set(slot, state);
        self.pages.set(page_no, Some(page));
        assert(self@ =~= old(self)@.update(idx as int, state)) by {
            assert forall|i: int| 0 <= i < self.num_blocks implies #[trigger] self@[i]
                == old(self)@.update(idx as int, state)[i] by {
                if i / STATE_PAGE_LEN as int == page_no as int && i % STATE_PAGE_LEN as int
                    == slot as int {
                    assert(i == idx as int);
                }
            }
        }
    }

    /// Whether block `idx` has a local copy or a pending one.
    pub fn is_present(&self, idx: usize) -> (present: bool)
        requires
            self.wf(),
            idx < self@.len(),
        ensures
            present == (self@[idx as int] != SparseBlockState::NOT_PRESENT),
    {
        self.get(idx) != SparseBlockState::NOT_PRESENT
    }

    /// Replaces the state of block `idx` by `to` if it is `from`. Hands back
    /// the state found: as `Ok` when it was replaced, as `Err` otherwise.
    pub fn cas(&mut self, idx: usize, from: u8, to: u8) -> (found: Result<u8, u8>)
        requires
            old(self).wf(),
            idx < old(self)@.len(),
        ensures
            final(self).wf(),
            final(self)@ == swapped(old(self)@, idx as int, from, to),
            found == (if old(self)@[idx as int] == from {
                Ok::<u8, u8>(from)
            } else {
                Err::<u8, u8>(old(self)@[idx as int])
            }),
    {
        let current: u8 = self.get(idx);
        if current == from {
            self.set(idx, to);
            Ok(current)
        } else {
            Err(current)
        }
    }

    /// Marks a `NOT_PRESENT` block `CLEAN`; any other block stays as it is.
    pub fn set_present(&mut self, idx: usize)
        requires
            old(self).wf(),
            idx < old(self)@.len(),
        ensures
            final(self).wf(),
            final(self)@ == swapped(
                old(self)@,
                idx as int,
                SparseBlockState::NOT_PRESENT,
                SparseBlockState::CLEAN,
            ),
    {
        let _ = self.cas(idx, SparseBlockState::NOT_PRESENT, SparseBlockState::CLEAN);
    }

    /// As `set_present`; says whether this call made the transition.
    pub fn try_set_present(&mut self, idx: usize) -> (won: bool)
        requires
            old(self).wf(),
            idx < old(self)@.len(),
        ensures
            final(self).wf(),
            final(self)@ == swapped(
                old(self)@,
                idx as int,
                SparseBlockState::NOT_PRESENT,
                SparseBlockState::CLEAN,
            ),
            won == (old(self)@[idx as int] == SparseBlockState::NOT_PRESENT),
    {
        self.cas(idx, SparseBlockState::NOT_PRESENT, SparseBlockState::CLEAN).is_ok()
    }

    /// Makes block `idx` dirty whatever its state, and says where it came from.
    pub fn transition_to_dirty(&mut self, idx: usize) -> (from: DirtyTransition)
        requires
            old(self).wf(),
            idx < old(self)@.len(),
        ensures
            final(self).wf(),
            final(self)@ == old(self)@.update(idx as int, SparseBlockState::DIRTY),
            from == dirty_transition(old(self)@[idx as int]),
    {
        let current: u8 = self.get(idx);
        if current == SparseBlockState::DIRTY {
            assert(self@ =~= old(self)@.update(idx as int, SparseBlockState::DIRTY));
            return DirtyTransition::AlreadyDirty;
        }
        self.set(idx, SparseBlockState::DIRTY);
        if current == SparseBlockState::SYNCING {
            DirtyTransition::FromSyncing
        } else {
            DirtyTransition::FromCleanOrNotPresent
        }
    }

    /// Claims a dirty block for a flush. `false` if it is not dirty.
    pub fn transition_dirty_to_syncing(&mut self, idx: usize) -> (claimed: bool)
        requires
            old(self).wf(),
            idx < old(self)@.len(),
        ensures
            final(self).wf(),
            final(self)@ == swapped(
                old(self)@,
                idx as int,
                SparseBlockState::DIRTY,
                SparseBlockState::SYNCING,
            ),
            claimed == (old(self)@[idx as int] == SparseBlockState::DIRTY),
    {
        self.cas(idx, SparseBlockState::DIRTY, SparseBlockState::SYNCING).is_ok()
    }

    /// Evicts a flushed block. `false` if it is no longer syncing.
    pub fn transition_syncing_to_not_present(&mut self, idx: usize) -> (evicted: bool)
        requires
            old(self).wf(),
            idx < old(self)@.len(),
        ensures
            final(self).wf(),
            final(self)@ == swapped(
                old(self)@,
                idx as int,
                SparseBlockState::SYNCING,
                SparseBlockState::NOT_PRESENT,
            ),
            evicted == (old(self)@[idx as int] == SparseBlockState::SYNCING),
    {
        self.cas(idx, SparseBlockState::SYNCING, SparseBlockState::NOT_PRESENT).is_ok()
    }

    /// The present blocks in ascending order, each with its state.
    pub fn iter_present(&self) -> (entries: Vec<(usize, u8)>)
        requires
            self.wf(),
        ensures
            entries@ == present_entries(self@, self@.len()),
    {
        let mut entries: Vec<(usize, u8)> = Vec::new();
        let mut i: usize = 0;
        while i < self.num_blocks
            invariant
                self.wf(),
                i <= self.num_blocks,
                self@.len() == self.num_blocks,
                entries@ == present_entries(self@, i as nat),
            decreases self.num_blocks - i,
        {
            let state: u8 = self.get(i);
            if state != SparseBlockState::NOT_PRESENT {
                entries.push((i, state));
            }
            i = i + 1;
        }
        entries
    }

    /// Number of present blocks.
    pub fn count_present(&self) -> (n: usize)
        requires
            self.wf(),
        ensures
            n == self@.len() - count_state(self@, SparseBlockState::NOT_PRESENT),
    {
        let mut n: usize = 0;
        let mut i: usize = 0;
        while i < self.num_blocks
            invariant
                self.wf(),
                n <= i <= self.num_blocks,
                self@.len() == self.num_blocks,
                n == i - count_state(self@.take(i as int), SparseBlockState::NOT_PRESENT),
            decreases self.num_blocks - i,
        {
            proof {
                assert(self@.take(i + 1).drop_last() =~= self@.take(i as int));
            }
            if self.get(i) != SparseBlockState::NOT_PRESENT {
                n = n + 1;
            }
            i = i + 1;
        }
        assert(self@.take(i as int) =~= self@);
        n
    }
}

/// The present blocks are listed in ascending order, each once and with its state, and no
/// others.
pub proof fn law_present_blocks_are_listed(map: SparseStateMap, entries: Vec<(usize, u8)>)
    requires
        call_ensures(SparseStateMap::iter_present, (&map,), entries),
        map@.len() <= usize::MAX,
    ensures
        forall|i: int|
            0 <= i < map@.len() && (#[trigger] map@[i]) != 0 ==> entries@.contains(
                (i as usize, map@[i]),
            ),
        forall|k: int|
            0 <= k < entries@.len() ==> (#[trigger] entries@[k]).0 < map@.len() && entries@[k].1
                == map@[entries@[k].0 as int] && entries@[k].1 != 0,
        forall|j: int, k: int|
            0 <= j < k < entries@.len() ==> (#[trigger] entries@[j]).0 < (#[trigger] entries@[k]).0,
{
    lemma_present_entries(map@, map@.len());
}

proof fn lemma_present_entries(states: Seq<u8>, n: nat)
    requires
        n <= states.len() <= usize::MAX,
    ensures
        ({
            let entries = present_entries(states, n);
            &&& forall|i: int|
                0 <= i < n && (#[trigger] states[i]) != 0 ==> entries.contains(
                    (i as usize, states[i]),
                )
            &&& forall|k: int|
                0 <= k < entries.len() ==> (#[trigger] entries[k]).0 < n && entries[k].1
                    == states[entries[k].0 as int] && entries[k].1 != 0
            &&& forall|j: int, k: int|
                0 <= j < k < entries.len() ==> (#[trigger] entries[j]).0 < (
                #[trigger] entries[k]).0
        }),
    decreases n,
{
    if n > 0 {
        lemma_present_entries(states, (n - 1) as nat);
        let before = present_entries(states, (n - 1) as nat);
        let entries = present_entries(states, n);
        assert forall|i: int| 0 <= i < n && (#[trigger] states[i]) != 0 implies entries.contains(
            (i as usize, states[i]),
        ) by {
            if i < n - 1 {
                let k = choose|k: int|
                    0 <= k < before.len() && before[k] == (i as usize, states[i]);
                assert(entries[k] == (i as usize, states[i]));
            } else {
                assert(entries.last() == (i as usize, states[i]));
            }
        }
        assert forall|k: int| 0 <= k < entries.len() implies (#[trigger] entries[k]).0 < n
            && entries[k].1 == states[entries[k].0 as int] && entries[k].1 != 0 by {
            if k < before.len() {
                assert(entries[k] == before[k]);
            }
        }
        assert forall|j: int, k: int| 0 <= j < k < entries.len() implies (#[trigger] entries[j]).0
            < (#[trigger] entries[k]).0 by {
            assert(entries[j] == before[j]);
            if k < before.len() {
                assert(entries[k] == before[k]);
            }
        }
    }
}

/// A count is that of the blocks in the state; those that are not in state 0 are the
/// present ones.
pub proof fn law_states_are_counted(states: Seq<u8>, state: u8)
    ensures
        count_state(states, state) == states.filter(|s: u8| s == state).len(),
        states.len() - count_state(states, 0) == states.filter(|s: u8| s != 0).len(),
    decreases states.len(),
{
    reveal(Seq::filter);
    if states.len() > 0 {
        law_states_are_counted(states.drop_last(), state);
    }
}

/// As many blocks are counted as present as there are blocks in another state than 0.
pub proof fn law_present_blocks_are_counted(map: SparseStateMap, n: usize)
    requires
        call_ensures(SparseStateMap::count_present, (&map,), n),
    ensures
        n == map@.filter(|s: u8| s != 0).len(),
{
    law_states_are_counted(map@, 0);
}

/// A compare-and-swap changes the block that it names if it finds what it expects there,
/// and tells what it found. Nothing else changes.
pub proof fn law_compare_and_swap(
    map: &mut SparseStateMap,
    idx: usize,
    from: u8,
    to: u8,
    found: Result<u8, u8>,
    j: int,
)
    requires
        call_ensures(SparseStateMap::cas, (map, idx, from, to), found),
        idx < mut_ref_current(map)@.len(),
        0 <= j < mut_ref_current(map)@.len(),
    ensures
        ({
            let before = mut_ref_current(map)@;
            let after = mut_ref_future(map)@;
            &&& after.len() == before.len()
            &&& j != idx ==> after[j] == before[j]
            &&& before[idx as int] == from ==> after[idx as int] == to && found == Ok::<u8, u8>(
                from,
            )
            &&& before[idx as int] != from ==> after[idx as int] == before[idx as int] && found
                == Err::<u8, u8>(before[idx as int])
        }),
{
}

/// What becomes of a block that is made dirty, claimed by a flush, or evicted: it is dirty
/// whatever it was; a flush gets it only if it was dirty; only a claimed block is evicted.
/// No other block changes. The states are 0 for absent, 1 for clean, 2 for dirty and 3 for
/// claimed.
pub proof fn law_block_life(
    dirtied: &mut SparseStateMap,
    from: DirtyTransition,
    flushed: &mut SparseStateMap,
    claimed: bool,
    dropped: &mut SparseStateMap,
    evicted: bool,
    idx: usize,
    j: int,
)
    requires
        call_ensures(SparseStateMap::transition_to_dirty, (dirtied, idx), from),
        call_ensures(SparseStateMap::transition_dirty_to_syncing, (flushed, idx), claimed),
        call_ensures(SparseStateMap::transition_syncing_to_not_present, (dropped, idx), evicted),
        idx < mut_ref_current(dirtied)@.len(),
        idx < mut_ref_current(flushed)@.len(),
        idx < mut_ref_current(dropped)@.len(),
        j != idx,
    ensures
        mut_ref_future(dirtied)@[idx as int] == 2,
        from is AlreadyDirty <==> mut_ref_current(dirtied)@[idx as int] == 2,
        from is FromSyncing <==> mut_ref_current(dirtied)@[idx as int] == 3,
        claimed <==> mut_ref_current(flushed)@[idx as int] == 2,
        claimed ==> mut_ref_future(flushed)@[idx as int] == 3,
        !claimed ==> mut_ref_future(flushed)@ == mut_ref_current(flushed)@,
        evicted <==> mut_ref_current(dropped)@[idx as int] == 3,
        evicted ==> mut_ref_future(dropped)@[idx as int] == 0,
        !evicted ==> mut_ref_future(dropped)@ == mut_ref_current(dropped)@,
        0 <= j < mut_ref_current(dirtied)@.len() ==> mut_ref_future(dirtied)@[j]
            == mut_ref_current(dirtied)@[j],
        0 <= j < mut_ref_current(flushed)@.len() ==> mut_ref_future(flushed)@[j]
            == mut_ref_current(flushed)@[j],
        0 <= j < mut_ref_current(dropped)@.len() ==> mut_ref_future(dropped)@[j]
            == mut_ref_current(dropped)@[j],
{
}

/// What is told of a block, and what marking it present does: an absent block is clean
/// afterwards, any other is as it was, and so is every other block.
pub proof fn law_map_is_told(
    map: SparseStateMap,
    idx: usize,
    state: u8,
    present: bool,
    marked: &mut SparseStateMap,
    fresh: SparseStateMap,
    num_blocks: usize,
    j: int,
)
    requires
        call_ensures(SparseStateMap::get, (&map, idx), state),
        call_ensures(SparseStateMap::is_present, (&map, idx), present),
        call_ensures(SparseStateMap::set_present, (marked, idx), ()),
        call_ensures(SparseStateMap::new, (num_blocks,), fresh),
        idx < map@.len(),
        idx < mut_ref_current(marked)@.len(),
        0 <= j < mut_ref_current(marked)@.len(),
    ensures
        state == map@[idx as int],
        present <==> map@[idx as int] != 0,
        j != idx ==> mut_ref_future(marked)@[j] == mut_ref_current(marked)@[j],
        mut_ref_future(marked)@[idx as int] == if mut_ref_current(marked)@[idx as int] == 0 {
            1
        } else {
            mut_ref_current(marked)@[idx as int]
        },
        fresh@.len() == num_blocks,
        forall|i: int| 0 <= i < num_blocks ==> #[trigger] fresh@[i] == 0,
{
}

} // verus!
