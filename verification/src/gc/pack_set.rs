//! A set of packs.

use std::collections::HashSet;
use vstd::prelude::*;
use vstd::std_specs::iter::IteratorSpec;
use crate::write_cache::flush::PackId;

verus! {

broadcast use vstd::std_specs::hash::group_hash_axioms;

/// A pack: the chunk that it belongs to, and its ID.
pub type PackRef = (u32, PackId);

/// The number that stands for a pack: the chunk above the 64 bits of the ID.
pub open spec fn pack_number(p: PackRef) -> u128 {
    (p.0 * 0x1_0000_0000_0000_0000 + p.1) as u128
}

/// The pack that a number stands for.
pub open spec fn pack_of(n: u128) -> PackRef {
    ((n / 0x1_0000_0000_0000_0000) as u32, (n % 0x1_0000_0000_0000_0000) as u64)
}

fn number_of(p: PackRef) -> (n: u128)
    ensures
        n == pack_number(p),
        pack_of(n) == p,
{
    p.0 as u128 * 0x1_0000_0000_0000_0000 + p.1 as u128
}

/// A set of packs.
#[derive(Debug)]
pub struct PackSet {
    numbers: HashSet<u128>,
}

impl View for PackSet {
    type V = Set<PackRef>;

    closed spec fn view(&self) -> Set<PackRef> {
        Set::new(|p: PackRef| self.numbers@.contains(pack_number(p)))
    }
}

impl PackSet {
    /// Every number stands for a pack.
    pub closed spec fn wf(&self) -> bool {
        &&& self.numbers@.finite()
        &&& forall|n: u128| #[trigger] self.numbers@.contains(n) ==> pack_number(pack_of(n)) == n
    }

    /// The empty set.
    pub fn new() -> (set: Self)
        ensures
            set.wf(),
            set@ == Set::<PackRef>::empty(),
    {
        let set = PackSet { numbers: HashSet::new() };
        assert(set@ =~= Set::<PackRef>::empty());
        set
    }

    /// Adds a pack.
    pub fn insert(&mut self, p: PackRef)
        requires
            old(self).wf(),
        ensures
            final(self).wf(),
            final(self)@ == old(self)@.insert(p),
    {
        let n: u128 = number_of(p);
        self.numbers.insert(n);
        proof {
            assert forall|q: PackRef| #[trigger] self@.contains(q) == old(self)@.insert(p).contains(
                q,
            ) by {
                lemma_number(q);
                lemma_number(p);
            }
            assert(self@ =~= old(self)@.insert(p));
        }
    }

    /// Removes a pack.
    pub fn remove(&mut self, p: PackRef)
        requires
            old(self).wf(),
        ensures
            final(self).wf(),
            final(self)@ == old(self)@.remove(p),
    {
        let n: u128 = number_of(p);
        self.numbers.remove(&n);
        proof {
            assert forall|q: PackRef| #[trigger] self@.contains(q) == old(self)@.remove(p).contains(
                q,
            ) by {
                lemma_number(q);
                lemma_number(p);
            }
            assert(self@ =~= old(self)@.remove(p));
        }
    }

    /// Whether a pack is in the set.
    pub fn contains(&self, p: PackRef) -> (yes: bool)
        ensures
            yes == self@.contains(p),
    {
        let n: u128 = number_of(p);
        self.numbers.contains(&n)
    }

    proof fn lemma_size(&self)
        requires
            self.wf(),
        ensures
            self@.finite(),
            self@.len() == self.numbers@.len(),
    {
        let f = |n: u128| pack_of(n);
        let image = self.numbers@.map(f);
        assert forall|p: PackRef| #[trigger] image.contains(p) == self@.contains(p) by {
            lemma_number(p);
            if self@.contains(p) {
                assert(f(pack_number(p)) == p);
            }
        }
        assert(image =~= self@);
        assert(vstd::relations::injective_on(f, self.numbers@)) by {
            assert forall|a: u128, b: u128|
                self.numbers@.contains(a) && self.numbers@.contains(b) && #[trigger] f(a)
                    == #[trigger] f(b) implies a == b by {
                assert(pack_number(pack_of(a)) == a && pack_number(pack_of(b)) == b);
            }
        }
        vstd::set_lib::lemma_map_size(self.numbers@, self@, f);
    }

    /// The number of packs.
    pub fn len(&self) -> (n: usize)
        requires
            self.wf(),
        ensures
            self@.finite(),
            n == self@.len(),
    {
        let n: usize = self.numbers.len();
        proof {
            self.lemma_size();
        }
        n
    }

    /// Whether the set has no packs.
    pub fn is_empty(&self) -> (empty: bool)
        requires
            self.wf(),
        ensures
            empty == (self@ == Set::<PackRef>::empty()),
    {
        let n: usize = self.len();
        proof {
            if n == 0 {
                assert(self@ =~= Set::<PackRef>::empty());
            }
        }
        n == 0
    }

    /// The packs, each once.
    pub fn to_vec(&self) -> (packs: Vec<PackRef>)
        requires
            self.wf(),
        ensures
            packs@.no_duplicates(),
            packs@.to_set() == self@,
    {
        let mut packs: Vec<PackRef> = Vec::new();
        let iter = self.numbers.iter();
        let ghost all = iter.remaining();
        for n in it: iter
            invariant
                self.wf(),
                it.seq() == all,
                all.unref().to_set() == self.numbers@,
                packs@.len() == it.index(),
                forall|j: int| 0 <= j < packs@.len() ==> #[trigger] packs@[j] == pack_of(*all[j]),
        {
            proof {
                assert(all.unref()[it.index() as int] == *n);
                assert(self.numbers@.contains(*n));
            }
            packs.push(
                ((*n / 0x1_0000_0000_0000_0000) as u32, (*n % 0x1_0000_0000_0000_0000) as u64),
            );
        }
        proof {
            assert forall|i: int, j: int|
                0 <= i < packs@.len() && 0 <= j < packs@.len() && i != j implies packs@[i]
                != packs@[j] by {
                assert(all.unref()[i] == *all[i] && all.unref()[j] == *all[j]);
                assert(self.numbers@.contains(*all[i]) && self.numbers@.contains(*all[j]));
            }
            assert forall|p: PackRef| #[trigger] packs@.to_set().contains(p) == self@.contains(
                p,
            ) by {
                lemma_number(p);
                if packs@.contains(p) {
                    let i = choose|i: int| 0 <= i < packs@.len() && packs@[i] == p;
                    assert(all.unref()[i] == *all[i]);
                    assert(self.numbers@.contains(*all[i]));
                }
                if self@.contains(p) {
                    let i = choose|i: int|
                        0 <= i < all.unref().len() && all.unref()[i] == pack_number(p);
                    assert(packs@[i] == p);
                }
            }
            assert(packs@.to_set() =~= self@);
        }
        packs
    }
}

proof fn lemma_number(p: PackRef)
    ensures
        pack_of(pack_number(p)) == p,
{
}

} // verus!
