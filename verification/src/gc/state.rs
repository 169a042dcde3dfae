//! What is remembered between runs: what was seen dead, and since when.

use vstd::prelude::*;
use crate::text::{decimal4, hex16, push_decimal4, push_hex16};
use crate::time::{
    duration_since, instant_of, nanos_between, ordinary, parse_instant, rfc3339_of, to_rfc3339,
    utc_now, valid_instant, Duration, Instant,
};
use crate::write_cache::flush::PackId;

verus! {

/// The keys of a list of marks.
pub open spec fn has_key(entries: Seq<(String, String)>, key: Seq<char>) -> bool {
    exists|i: int| 0 <= i < entries.len() && #[trigger] entries[i].0@ == key
}

/// Where a key stands in a list of marks.
pub open spec fn place_of(entries: Seq<(String, String)>, key: Seq<char>) -> int {
    choose|i: int| 0 <= i < entries.len() && #[trigger] entries[i].0@ == key
}

/// Whether no key occurs twice.
pub open spec fn distinct_keys(entries: Seq<(String, String)>) -> bool {
    forall|i: int, j: int|
        0 <= i < j < entries.len() ==> #[trigger] entries[i].0@ != #[trigger] entries[j].0@
}

/// Keys that were seen dead, each with the time when it was seen first.
#[derive(Debug)]
pub struct DeadMarks {
    entries: Vec<(String, String)>,
}

impl View for DeadMarks {
    type V = Map<Seq<char>, Seq<char>>;

    closed spec fn view(&self) -> Map<Seq<char>, Seq<char>> {
        Map::new(
            |key: Seq<char>| has_key(self.entries@, key),
            |key: Seq<char>| self.entries@[place_of(self.entries@, key)].1@,
        )
    }
}

impl DeadMarks {
    /// No key occurs twice.
    pub closed spec fn wf(&self) -> bool {
        distinct_keys(self.entries@)
    }

    /// No marks.
    pub fn new() -> (marks: Self)
        ensures
            marks.wf(),
            marks@ == Map::<Seq<char>, Seq<char>>::empty(),
    {
        let marks = DeadMarks { entries: Vec::new() };
        assert(marks@ =~= Map::<Seq<char>, Seq<char>>::empty());
        marks
    }

    fn find(&self, key: &String) -> (place: Option<usize>)
        ensures
            match place {
                Some(i) => i < self.entries@.len() && self.entries@[i as int].0@ == key@,
                None => !has_key(self.entries@, key@),
            },
    {
        let mut i: usize = 0;
        while i < self.entries.len()
            invariant
                i <= self.entries@.len(),
                forall|j: int| 0 <= j < i ==> #[trigger] self.entries@[j].0@ != key@,
            decreases self.entries@.len() - i,
        {
            if self.entries[i].0 == *key {
                return Some(i);
            }
            i = i + 1;
        }
        None
    }

    proof fn lemma_place(&self, i: int)
        requires
            self.wf(),
            0 <= i < self.entries@.len(),
        ensures
            self@.contains_key(self.entries@[i].0@),
            self@[self.entries@[i].0@] == self.entries@[i].1@,
    {
        let key = self.entries@[i].0@;
        assert(has_key(self.entries@, key));
        let j = place_of(self.entries@, key);
        assert(0 <= j < self.entries@.len() && self.entries@[j].0@ == key);
    }

    /// The time that a key is marked with.
    pub fn get(&self, key: &String) -> (time: Option<&String>)
        requires
            self.wf(),
        ensures
            match time {
                Some(time) => self@.contains_key(key@) && time@ == self@[key@],
                None => !self@.contains_key(key@),
            },
    {
        match self.find(key) {
            Some(i) => {
                proof {
                    self.lemma_place(i as int);
                }
                Some(&self.entries[i].1)
            },
            None => None,
        }
    }

    /// Whether a key is marked.
    pub fn contains_key(&self, key: &String) -> (marked: bool)
        requires
            self.wf(),
        ensures
            marked == self@.contains_key(key@),
    {
        self.get(key).is_some()
    }

    /// The marks that a list of pairs stands for. The last one of a key counts.
    pub fn from_pairs(pairs: &Vec<(String, String)>) -> (marks: Self)
        ensures
            marks.wf(),
            marks@ == marks_of(text_pairs(pairs@)),
    {
        let mut marks = DeadMarks::new();
        let ghost all = text_pairs(pairs@);
        let mut i: usize = 0;
        assert(all.take(0) =~= Seq::empty());
        while i < pairs.len()
            invariant
                i <= pairs@.len(),
                all == text_pairs(pairs@),
                marks.wf(),
                marks@ == marks_of(all.take(i as int)),
            decreases pairs@.len() - i,
        {
            proof {
                assert(all.take(i + 1).drop_last() =~= all.take(i as int));
            }
            marks.insert(pairs[i].0.clone(), pairs[i].1.clone());
            i = i + 1;
        }
        assert(all.take(i as int) =~= all);
        marks
    }

    /// The marks as a list of pairs.
    pub fn to_pairs(&self) -> (pairs: Vec<(String, String)>)
        requires
            self.wf(),
        ensures
            marks_of(text_pairs(pairs@)) == self@,
    {
        let mut pairs: Vec<(String, String)> = Vec::new();
        let mut i: usize = 0;
        while i < self.entries.len()
            invariant
                i <= self.entries@.len(),
                pairs@.len() == i,
                forall|j: int|
                    0 <= j < i ==> (#[trigger] pairs@[j]).0@ == self.entries@[j].0@ && pairs@[j].1@
                        == self.entries@[j].1@,
            decreases self.entries@.len() - i,
        {
            pairs.push((self.entries[i].0.clone(), self.entries[i].1.clone()));
            i = i + 1;
        }
        proof {
            let all = text_pairs(pairs@);
            let marks = marks_of(all);
            lemma_marks_of(all);
            assert forall|k: Seq<char>| #[trigger] marks.contains_key(k) == self@.contains_key(
                k,
            ) by {
                if marks.contains_key(k) {
                    let j = choose|j: int| 0 <= j < all.len() && (#[trigger] all[j]).0 == k;
                    assert(pairs@[j].0@ == k);
                    assert(self.entries@[j].0@ == k);
                }
                if self@.contains_key(k) {
                    let j = place_of(self.entries@, k);
                    assert(pairs@[j].0@ == k);
                    assert(all[j].0 == k);
                }
            }
            assert forall|k: Seq<char>| marks.contains_key(k) implies #[trigger] marks[k]
                == self@[k] by {
                let j = choose|j: int|
                    0 <= j < all.len() && (#[trigger] all[j]).0 == k && all[j].1 == marks[k];
                assert(pairs@[j].0@ == k);
                assert(self.entries@[j].0@ == k);
                self.lemma_place(j);
            }
            assert(marks =~= self@);
        }
        pairs
    }

    /// The number of marks.
    pub fn len(&self) -> (n: usize)
        requires
            self.wf(),
        ensures
            n == self@.dom().len(),
            self@.dom().finite(),
    {
        proof {
            let keys = self.entries@.map_values(|e: (String, String)| e.0@);
            assert(keys.no_duplicates()) by {
                assert forall|i: int, j: int|
                    0 <= i < keys.len() && 0 <= j < keys.len() && i != j implies keys[i]
                    != keys[j] by {
                    if i < j {
                        assert(self.entries@[i].0@ != self.entries@[j].0@);
                    } else {
                        assert(self.entries@[j].0@ != self.entries@[i].0@);
                    }
                }
            }
            keys.unique_seq_to_set();
            assert(keys.to_set() =~= self@.dom()) by {
                assert forall|k: Seq<char>| self@.dom().contains(k) implies #[trigger] keys.to_set()
                    .contains(k) by {
                    let i = place_of(self.entries@, k);
                    assert(keys[i] == k);
                }
                assert forall|k: Seq<char>| #[trigger] keys.to_set().contains(k) implies self@.dom()
                    .contains(k) by {
                    let i = choose|i: int| 0 <= i < keys.len() && keys[i] == k;
                    assert(self.entries@[i].0@ == k);
                }
            }
        }
        self.entries.len()
    }

    /// Marks a key, in place of a mark that it may have.
    pub fn insert(&mut self, key: String, time: String)
        requires
            old(self).wf(),
        ensures
            final(self).wf(),
            final(self)@ == old(self)@.insert(key@, time@),
    {
        self.remove(&key);
        self.or_insert(key, time);
        assert(self@ =~= old(self)@.insert(key@, time@));
    }

    /// Marks a key, unless it is marked.
    pub fn or_insert(&mut self, key: String, time: String)
        requires
            old(self).wf(),
        ensures
            final(self).wf(),
            final(self)@ == marked_once(old(self)@, key@, time@),
    {
        match self.find(&key) {
            Some(i) => {
                proof {
                    self.lemma_place(i as int);
                }
            },
            None => {
                let ghost before = self.entries@;
                let ghost key_text = key@;
                let ghost time_text = time@;
                self.entries.push((key, time));
                proof {
                    let after = self.entries@;
                    assert(after.last().0@ == key_text);
                    assert forall|i: int, j: int| 0 <= i < j < after.len() implies #[trigger] after[i].0@
                        != #[trigger] after[j].0@ by {
                        assert(after[i] == before[i]);
                        if j < before.len() {
                            assert(after[j] == before[j]);
                        }
                    }
                    let expected = old(self)@.insert(key_text, time_text);
                    assert forall|k: Seq<char>| #[trigger] self@.contains_key(k)
                        == expected.contains_key(k) by {
                        if has_key(after, k) {
                            let i = place_of(after, k);
                            if i < before.len() {
                                assert(before[i].0@ == k);
                            }
                        }
                        if has_key(before, k) {
                            let i = place_of(before, k);
                            assert(after[i].0@ == k);
                        }
                        if k == key_text {
                            assert(after[before.len() as int].0@ == k);
                        }
                    }
                    assert forall|k: Seq<char>| self@.contains_key(k) implies #[trigger] self@[k]
                        == expected[k] by {
                        let i = place_of(after, k);
                        if i < before.len() {
                            assert(before[i].0@ == k);
                            old(self).lemma_place(i);
                        }
                        self.lemma_place(i);
                    }
                    assert(self@ =~= expected);
                }
            },
        }
    }

    /// Removes the mark of a key.
    pub fn remove(&mut self, key: &String)
        requires
            old(self).wf(),
        ensures
            final(self).wf(),
            final(self)@ == old(self)@.remove(key@),
    {
        match self.find(key) {
            Some(i) => {
                let ghost before = self.entries@;
                self.entries.remove(i);
                proof {
                    let after = self.entries@;
                    assert forall|a: int, b: int| 0 <= a < b < after.len() implies #[trigger] after[a].0@
                        != #[trigger] after[b].0@ by {
                        let x = if a < i {
                            a
                        } else {
                            a + 1
                        };
                        let y = if b < i {
                            b
                        } else {
                            b + 1
                        };
                        assert(after[a] == before[x] && after[b] == before[y]);
                        assert(before[x].0@ != before[y].0@);
                    }
                    let expected = old(self)@.remove(key@);
                    assert forall|k: Seq<char>| #[trigger] self@.contains_key(k)
                        == expected.contains_key(k) by {
                        if has_key(after, k) {
                            let a = place_of(after, k);
                            let x = if a < i {
                                a
                            } else {
                                a + 1
                            };
                            assert(before[x].0@ == k);
                            assert(before[i as int].0@ == key@);
                        }
                        if has_key(before, k) && k != key@ {
                            let x = place_of(before, k);
                            let a = if x < i {
                                x
                            } else {
                                x - 1
                            };
                            assert(after[a].0@ == k);
                        }
                    }
                    assert forall|k: Seq<char>| self@.contains_key(k) implies #[trigger] self@[k]
                        == expected[k] by {
                        let a = place_of(after, k);
                        let x = if a < i {
                            a
                        } else {
                            a + 1
                        };
                        assert(after[a] == before[x]);
                        self.lemma_place(a);
                        old(self).lemma_place(x);
                    }
                    assert(self@ =~= expected);
                }
            },
            None => {
                assert(self@ =~= old(self)@.remove(key@));
            },
        }
    }
}

/// The marks that a list of pairs stands for. The last one of a key counts.
pub open spec fn marks_of(pairs: Seq<(Seq<char>, Seq<char>)>) -> Map<Seq<char>, Seq<char>>
    decreases pairs.len(),
{
    if pairs.len() == 0 {
        Map::empty()
    } else {
        marks_of(pairs.drop_last()).insert(pairs.last().0, pairs.last().1)
    }
}

proof fn lemma_marks_of(pairs: Seq<(Seq<char>, Seq<char>)>)
    ensures
        forall|j: int|
            0 <= j < pairs.len() ==> marks_of(pairs).contains_key((#[trigger] pairs[j]).0),
        forall|k: Seq<char>| #[trigger]
            marks_of(pairs).contains_key(k) ==> exists|j: int|
                0 <= j < pairs.len() && (#[trigger] pairs[j]).0 == k && pairs[j].1 == marks_of(
                    pairs,
                )[k],
    decreases pairs.len(),
{
    if pairs.len() > 0 {
        let rest = pairs.drop_last();
        let n = pairs.len() - 1;
        lemma_marks_of(rest);
        assert forall|j: int| 0 <= j < pairs.len() implies marks_of(pairs).contains_key(
            (#[trigger] pairs[j]).0,
        ) by {
            if j < n {
                assert(rest[j] == pairs[j]);
            }
        }
        assert forall|k: Seq<char>| #[trigger]
            marks_of(pairs).contains_key(k) implies exists|j: int|
            0 <= j < pairs.len() && (#[trigger] pairs[j]).0 == k && pairs[j].1 == marks_of(
                pairs,
            )[k] by {
            if k == pairs[n].0 {
                assert(pairs[n].1 == marks_of(pairs)[k]);
            } else {
                let j = choose|j: int|
                    0 <= j < rest.len() && (#[trigger] rest[j]).0 == k && rest[j].1 == marks_of(
                        rest,
                    )[k];
                assert(pairs[j] == rest[j]);
            }
        }
    }
}

/// Marks after a key was marked, unless it already was.
pub open spec fn marked_once(
    marks: Map<Seq<char>, Seq<char>>,
    key: Seq<char>,
    time: Seq<char>,
) -> Map<Seq<char>, Seq<char>> {
    if marks.contains_key(key) {
        marks
    } else {
        marks.insert(key, time)
    }
}

/// The key of a pack: the chunk in decimal with at least four digits, a slash, and
/// the pack in sixteen hexadecimal digits.
pub open spec fn pack_key_text(chunk_idx: u32, pack_id: PackId) -> Seq<char> {
    decimal4(chunk_idx as int).push('/') + hex16(pack_id as int)
}

/// Format a composite key for a (chunk_idx, pack_id) pair.
pub fn pack_key(chunk_idx: u32, pack_id: PackId) -> (key: String)
    ensures
        key@ == pack_key_text(chunk_idx, pack_id),
{
    let mut key = String::new();
    push_decimal4(&mut key, chunk_idx as u64);
    key.push('/');
    push_hex16(&mut key, pack_id);
    assert(key@ =~= pack_key_text(chunk_idx, pack_id));
    key
}

/// State that is kept between runs, for the grace period.
#[derive(Debug)]
pub struct GcState {
    /// Pack key -> first-seen-dead ISO 8601 timestamp.
    pub dead_packs: DeadMarks,
    /// Layer digest (hex) -> first-seen-dead ISO 8601 timestamp. A layer is dead
    /// when no image refers to it.
    pub dead_layers: DeadMarks,
}

impl Default for GcState {
    fn default() -> (state: Self)
        ensures
            state.wf(),
            state.dead_packs@ == Map::<Seq<char>, Seq<char>>::empty(),
            state.dead_layers@ == Map::<Seq<char>, Seq<char>>::empty(),
    {
        GcState { dead_packs: DeadMarks::new(), dead_layers: DeadMarks::new() }
    }
}

/// Whether a mark with the given time is at least as old as the grace period. A
/// time that cannot be read never is, and one in the future has the age zero.
pub open spec fn old_enough(time: Seq<char>, now: Instant, grace_period: Duration) -> bool {
    match instant_of(time) {
        Some(then) => {
            let age = nanos_between(now, then);
            (if age >= 0 {
                age
            } else {
                0
            }) >= grace_period.total()
        },
        None => false,
    }
}

/// Whether a key has been marked for at least the grace period.
pub open spec fn eligible(
    marks: Map<Seq<char>, Seq<char>>,
    key: Seq<char>,
    now: Instant,
    grace_period: Duration,
) -> bool {
    marks.contains_key(key) && old_enough(marks[key], now, grace_period)
}

/// The state as it is kept in a file: the marks of packs and of layers.
#[derive(Debug)]
pub struct SavedState {
    pub dead_packs: Vec<(String, String)>,
    pub dead_layers: Vec<(String, String)>,
}

impl GcState {
    /// The state that was saved. Without a file nothing is marked.
    pub fn load(saved: Option<&SavedState>) -> (state: Self)
        ensures
            state.wf(),
            state.dead_packs@ == (match saved {
                Some(saved) => marks_of(text_pairs(saved.dead_packs@)),
                None => Map::<Seq<char>, Seq<char>>::empty(),
            }),
            state.dead_layers@ == (match saved {
                Some(saved) => marks_of(text_pairs(saved.dead_layers@)),
                None => Map::<Seq<char>, Seq<char>>::empty(),
            }),
    {
        match saved {
            Some(saved) => GcState {
                dead_packs: DeadMarks::from_pairs(&saved.dead_packs),
                dead_layers: DeadMarks::from_pairs(&saved.dead_layers),
            },
            None => GcState::default(),
        }
    }

    /// The state to be saved. Loading it gives the same marks.
    pub fn save(&self) -> (saved: SavedState)
        requires
            self.wf(),
        ensures
            marks_of(text_pairs(saved.dead_packs@)) == self.dead_packs@,
            marks_of(text_pairs(saved.dead_layers@)) == self.dead_layers@,
    {
        SavedState { dead_packs: self.dead_packs.to_pairs(), dead_layers: self.dead_layers.to_pairs() }
    }

    /// The marks have no key twice.
    pub open spec fn wf(&self) -> bool {
        self.dead_packs.wf() && self.dead_layers.wf()
    }

    /// Marks a pack as dead since `now`, unless it is marked.
    pub fn mark_dead_pack_at(&mut self, chunk_idx: u32, pack_id: PackId, now: Instant)
        requires
            old(self).wf(),
            valid_instant(now),
        ensures
            final(self).wf(),
            final(self).dead_packs@ == marked_once(
                old(self).dead_packs@,
                pack_key_text(chunk_idx, pack_id),
                rfc3339_of(now.0, now.1),
            ),
            final(self).dead_layers == old(self).dead_layers,
            ordinary(now) ==> instant_of(rfc3339_of(now.0, now.1)) == Some(now),
    {
        let time: String = to_rfc3339(now);
        self.dead_packs.or_insert(pack_key(chunk_idx, pack_id), time);
    }

    /// Marks a pack as dead, unless it is marked.
    pub fn mark_dead_pack(&mut self, chunk_idx: u32, pack_id: PackId)
        requires
            old(self).wf(),
        ensures
            final(self).wf(),
            exists|now: Instant|
                valid_instant(now) && final(self).dead_packs@ == #[trigger] marked_once(
                    old(self).dead_packs@,
                    pack_key_text(chunk_idx, pack_id),
                    rfc3339_of(now.0, now.1),
                ),
            final(self).dead_layers == old(self).dead_layers,
    {
        let now: Instant = utc_now();
        self.mark_dead_pack_at(chunk_idx, pack_id, now);
    }

    /// Forgets that a pack was dead.
    pub fn mark_alive_pack(&mut self, chunk_idx: u32, pack_id: PackId)
        requires
            old(self).wf(),
        ensures
            final(self).wf(),
            final(self).dead_packs@ == old(self).dead_packs@.remove(
                pack_key_text(chunk_idx, pack_id),
            ),
            final(self).dead_layers == old(self).dead_layers,
    {
        self.dead_packs.remove(&pack_key(chunk_idx, pack_id));
    }

    /// Whether a dead pack has been dead long enough at `now` to delete.
    pub fn is_pack_eligible_at(
        &self,
        chunk_idx: u32,
        pack_id: PackId,
        grace_period: Duration,
        now: Instant,
    ) -> (yes: bool)
        requires
            self.wf(),
            valid_instant(now),
        ensures
            yes == eligible(
                self.dead_packs@,
                pack_key_text(chunk_idx, pack_id),
                now,
                grace_period,
            ),
    {
        let key: String = pack_key(chunk_idx, pack_id);
        GcState::is_key_eligible_at(&self.dead_packs, &key, grace_period, now)
    }

    /// Whether a dead pack has been dead long enough to delete.
    pub fn is_pack_eligible(&self, chunk_idx: u32, pack_id: PackId, grace_period: Duration) -> (yes:
        bool)
        requires
            self.wf(),
        ensures
            exists|now: Instant|
                valid_instant(now) && yes == #[trigger] eligible(
                    self.dead_packs@,
                    pack_key_text(chunk_idx, pack_id),
                    now,
                    grace_period,
                ),
    {
        let now: Instant = utc_now();
        self.is_pack_eligible_at(chunk_idx, pack_id, grace_period, now)
    }

    /// Whether an unreferenced layer has been dead long enough at `now` to delete.
    pub fn is_layer_eligible_at(
        &self,
        digest_hex: &String,
        grace_period: Duration,
        now: Instant,
    ) -> (yes: bool)
        requires
            self.wf(),
            valid_instant(now),
        ensures
            yes == eligible(self.dead_layers@, digest_hex@, now, grace_period),
    {
        GcState::is_key_eligible_at(&self.dead_layers, digest_hex, grace_period, now)
    }

    /// Whether an unreferenced layer has been dead long enough to delete.
    pub fn is_layer_eligible(&self, digest_hex: &String, grace_period: Duration) -> (yes: bool)
        requires
            self.wf(),
        ensures
            exists|now: Instant|
                valid_instant(now) && yes == #[trigger] eligible(
                    self.dead_layers@,
                    digest_hex@,
                    now,
                    grace_period,
                ),
    {
        let now: Instant = utc_now();
        self.is_layer_eligible_at(digest_hex, grace_period, now)
    }

    fn is_key_eligible_at(
        marks: &DeadMarks,
        key: &String,
        grace_period: Duration,
        now: Instant,
    ) -> (yes: bool)
        requires
            marks.wf(),
            valid_instant(now),
        ensures
            yes == eligible(marks@, key@, now, grace_period),
    {
        match marks.get(key) {
            Some(time) => match parse_instant(time.as_str()) {
                Some(then) => {
                    let age: Duration = match duration_since(now, then) {
                        Some(age) => age,
                        None => Duration::from_secs(0),
                    };
                    age.at_least(&grace_period)
                },
                None => false,
            },
            None => false,
        }
    }
}

/// The texts of a list of strings.
pub open spec fn texts(strings: Seq<String>) -> Seq<Seq<char>> {
    strings.map_values(|s: String| s@)
}

/// The texts of a list of pairs of strings.
pub open spec fn text_pairs(strings: Seq<(String, String)>) -> Seq<(Seq<char>, Seq<char>)> {
    strings.map_values(|p: (String, String)| (p.0@, p.1@))
}

/// What one prefix contributes to the state, collected while the prefixes are
/// worked on and applied afterwards.
#[derive(Debug)]
pub struct GcStateDelta {
    /// Packs newly seen as dead: (key, timestamp).
    pub newly_dead_packs: Vec<(String, String)>,
    /// Packs that became live again (were in dead state, now referenced).
    pub revived_packs: Vec<String>,
    /// Packs successfully deleted.
    pub deleted_packs: Vec<String>,
    /// Layers (by hex digest) newly seen as dead: (digest, timestamp).
    pub newly_dead_layers: Vec<(String, String)>,
    /// Layers that became live again (referenced by an image).
    pub revived_layers: Vec<String>,
    /// Layers successfully deleted.
    pub deleted_layers: Vec<String>,
}

/// The texts of a delta.
#[verifier::ext_equal]
pub struct Delta {
    pub newly_dead_packs: Seq<(Seq<char>, Seq<char>)>,
    pub revived_packs: Seq<Seq<char>>,
    pub deleted_packs: Seq<Seq<char>>,
    pub newly_dead_layers: Seq<(Seq<char>, Seq<char>)>,
    pub revived_layers: Seq<Seq<char>>,
    pub deleted_layers: Seq<Seq<char>>,
}

/// A delta that changes nothing.
pub open spec fn no_delta() -> Delta {
    Delta {
        newly_dead_packs: Seq::empty(),
        revived_packs: Seq::empty(),
        deleted_packs: Seq::empty(),
        newly_dead_layers: Seq::empty(),
        revived_layers: Seq::empty(),
        deleted_layers: Seq::empty(),
    }
}

impl View for GcStateDelta {
    type V = Delta;

    open spec fn view(&self) -> Delta {
        Delta {
            newly_dead_packs: text_pairs(self.newly_dead_packs@),
            revived_packs: texts(self.revived_packs@),
            deleted_packs: texts(self.deleted_packs@),
            newly_dead_layers: text_pairs(self.newly_dead_layers@),
            revived_layers: texts(self.revived_layers@),
            deleted_layers: texts(self.deleted_layers@),
        }
    }
}

impl Default for GcStateDelta {
    fn default() -> (delta: Self)
        ensures
            delta@ == no_delta(),
    {
        let delta = GcStateDelta {
            newly_dead_packs: Vec::new(),
            revived_packs: Vec::new(),
            deleted_packs: Vec::new(),
            newly_dead_layers: Vec::new(),
            revived_layers: Vec::new(),
            deleted_layers: Vec::new(),
        };
        assert(delta@ =~= no_delta());
        delta
    }
}

/// Marks after each of the pairs was marked, unless it already was.
pub open spec fn all_marked(
    marks: Map<Seq<char>, Seq<char>>,
    pairs: Seq<(Seq<char>, Seq<char>)>,
) -> Map<Seq<char>, Seq<char>>
    decreases pairs.len(),
{
    if pairs.len() == 0 {
        marks
    } else {
        marked_once(all_marked(marks, pairs.drop_last()), pairs.last().0, pairs.last().1)
    }
}

/// Marks after a delta: new ones are added first, then those are removed that were
/// revived or deleted.
pub open spec fn marks_after(
    marks: Map<Seq<char>, Seq<char>>,
    newly_dead: Seq<(Seq<char>, Seq<char>)>,
    revived: Seq<Seq<char>>,
    deleted: Seq<Seq<char>>,
) -> Map<Seq<char>, Seq<char>> {
    all_marked(marks, newly_dead).remove_keys(revived.to_set()).remove_keys(deleted.to_set())
}

fn mark_all(marks: &mut DeadMarks, pairs: &Vec<(String, String)>)
    requires
        old(marks).wf(),
    ensures
        final(marks).wf(),
        final(marks)@ == all_marked(old(marks)@, text_pairs(pairs@)),
{
    let mut i: usize = 0;
    let ghost all = text_pairs(pairs@);
    assert(all.take(0) =~= Seq::empty());
    while i < pairs.len()
        invariant
            i <= pairs@.len(),
            all == text_pairs(pairs@),
            marks.wf(),
            marks@ == all_marked(old(marks)@, all.take(i as int)),
        decreases pairs@.len() - i,
    {
        proof {
            assert(all.take(i + 1).drop_last() =~= all.take(i as int));
        }
        marks.or_insert(pairs[i].0.clone(), pairs[i].1.clone());
        i = i + 1;
    }
    assert(all.take(i as int) =~= all);
}

fn unmark_all(marks: &mut DeadMarks, keys: &Vec<String>)
    requires
        old(marks).wf(),
    ensures
        final(marks).wf(),
        final(marks)@ == old(marks)@.remove_keys(texts(keys@).to_set()),
{
    let mut i: usize = 0;
    let ghost all = texts(keys@);
    proof {
        assert(all.take(0).to_set() =~= Set::empty());
        assert(marks@ =~= old(marks)@.remove_keys(all.take(0).to_set()));
    }
    while i < keys.len()
        invariant
            i <= keys@.len(),
            all == texts(keys@),
            marks.wf(),
            marks@ == old(marks)@.remove_keys(all.take(i as int).to_set()),
        decreases keys@.len() - i,
    {
        marks.remove(&keys[i]);
        proof {
            let done = all.take(i as int);
            let next = all.take(i + 1);
            let gone = next.to_set();
            assert forall|k: Seq<char>| #[trigger] gone.contains(k) == (done.to_set().contains(k)
                || k == all[i as int]) by {
                assert(next[i as int] == all[i as int]);
                if done.to_set().contains(k) {
                    let j = choose|j: int| 0 <= j < i && done[j] == k;
                    assert(next[j] == k);
                }
                if gone.contains(k) {
                    let j = choose|j: int| 0 <= j <= i && next[j] == k;
                    if j < i {
                        assert(done[j] == k);
                    }
                }
            }
            assert(marks@ =~= old(marks)@.remove_keys(gone));
        }
        i = i + 1;
    }
    assert(all.take(i as int) =~= all);
}

impl GcState {
    /// Applies a delta.
    pub fn apply_delta(&mut self, delta: &GcStateDelta)
        requires
            old(self).wf(),
        ensures
            final(self).wf(),
            final(self).dead_packs@ == marks_after(
                old(self).dead_packs@,
                delta@.newly_dead_packs,
                delta@.revived_packs,
                delta@.deleted_packs,
            ),
            final(self).dead_layers@ == marks_after(
                old(self).dead_layers@,
                delta@.newly_dead_layers,
                delta@.revived_layers,
                delta@.deleted_layers,
            ),
    {
        mark_all(&mut self.dead_packs, &delta.newly_dead_packs);
        unmark_all(&mut self.dead_packs, &delta.revived_packs);
        unmark_all(&mut self.dead_packs, &delta.deleted_packs);
        mark_all(&mut self.dead_layers, &delta.newly_dead_layers);
        unmark_all(&mut self.dead_layers, &delta.revived_layers);
        unmark_all(&mut self.dead_layers, &delta.deleted_layers);
    }
}

/// Create a new empty GC state for testing.
pub fn new_gc_state_for_test() -> (state: GcState)
    ensures
        state.wf(),
        state.dead_packs@ == Map::<Seq<char>, Seq<char>>::empty(),
        state.dead_layers@ == Map::<Seq<char>, Seq<char>>::empty(),
{
    GcState::default()
}

/// Inject a dead pack into GC state with a specific timestamp for testing.
pub fn inject_dead_pack_for_test(
    state: &mut GcState,
    chunk_idx: u32,
    pack_id: PackId,
    timestamp: Instant,
)
    requires
        old(state).wf(),
        valid_instant(timestamp),
    ensures
        final(state).wf(),
        final(state).dead_packs@ == old(state).dead_packs@.insert(
            pack_key_text(chunk_idx, pack_id),
            rfc3339_of(timestamp.0, timestamp.1),
        ),
        final(state).dead_layers == old(state).dead_layers,
        ordinary(timestamp) ==> instant_of(rfc3339_of(timestamp.0, timestamp.1)) == Some(timestamp),
{
    let key: String = pack_key(chunk_idx, pack_id);
    let time: String = to_rfc3339(timestamp);
    state.dead_packs.insert(key, time);
}

/// A mark keeps the time of the first sighting: seeing a key dead again does not
/// change it.
pub proof fn law_mark_keeps_first_time(
    marks: Map<Seq<char>, Seq<char>>,
    pairs: Seq<(Seq<char>, Seq<char>)>,
    key: Seq<char>,
)
    requires
        marks.contains_key(key),
    ensures
        all_marked(marks, pairs).contains_key(key),
        all_marked(marks, pairs)[key] == marks[key],
    decreases pairs.len(),
{
    if pairs.len() > 0 {
        law_mark_keeps_first_time(marks, pairs.drop_last(), key);
    }
}

/// What was revived or deleted is no longer marked, so that the grace period of a
/// pack that dies again starts anew.
pub proof fn law_revived_and_deleted_are_forgotten(
    marks: Map<Seq<char>, Seq<char>>,
    newly_dead: Seq<(Seq<char>, Seq<char>)>,
    revived: Seq<Seq<char>>,
    deleted: Seq<Seq<char>>,
    key: Seq<char>,
)
    requires
        revived.contains(key) || deleted.contains(key),
    ensures
        !marks_after(marks, newly_dead, revived, deleted).contains_key(key),
{
}

/// A key that a delta does not name keeps its mark, or stays without one.
pub proof fn law_delta_leaves_others(
    marks: Map<Seq<char>, Seq<char>>,
    newly_dead: Seq<(Seq<char>, Seq<char>)>,
    revived: Seq<Seq<char>>,
    deleted: Seq<Seq<char>>,
    key: Seq<char>,
)
    requires
        !revived.contains(key),
        !deleted.contains(key),
        forall|i: int| 0 <= i < newly_dead.len() ==> #[trigger] newly_dead[i].0 != key,
    ensures
        marks_after(marks, newly_dead, revived, deleted).contains_key(key) == marks.contains_key(
            key,
        ),
        marks.contains_key(key) ==> marks_after(marks, newly_dead, revived, deleted)[key]
            == marks[key],
{
    lemma_unnamed(marks, newly_dead, key);
}

proof fn lemma_unnamed(
    marks: Map<Seq<char>, Seq<char>>,
    pairs: Seq<(Seq<char>, Seq<char>)>,
    key: Seq<char>,
)
    requires
        forall|i: int| 0 <= i < pairs.len() ==> #[trigger] pairs[i].0 != key,
    ensures
        all_marked(marks, pairs).contains_key(key) == marks.contains_key(key),
        marks.contains_key(key) ==> all_marked(marks, pairs)[key] == marks[key],
    decreases pairs.len(),
{
    if pairs.len() > 0 {
        let rest = pairs.drop_last();
        assert forall|i: int| 0 <= i < rest.len() implies #[trigger] rest[i].0 != key by {
            assert(rest[i] == pairs[i]);
        }
        lemma_unnamed(marks, rest, key);
        assert(pairs.last() == pairs[pairs.len() - 1]);
    }
}

/// A pack that was marked at `then`, in an ordinary year, is eligible exactly from
/// the moment when the grace period has passed.
pub proof fn law_eligible_after_grace(
    marks: Map<Seq<char>, Seq<char>>,
    key: Seq<char>,
    then: Instant,
    now: Instant,
    grace_period: Duration,
)
    requires
        !marks.contains_key(key),
        ordinary(then),
        ordinary(now),
        now.0 > then.0 || (now.0 == then.0 && now.1 >= then.1),
        instant_of(rfc3339_of(then.0, then.1)) == Some(then),
    ensures
        eligible(
            marked_once(marks, key, rfc3339_of(then.0, then.1)),
            key,
            now,
            grace_period,
        ) == ((now.0 - then.0) * 1_000_000_000 + now.1 - then.1 >= grace_period.total()),
{
}

proof fn lemma_first_mark(
    marks: Map<Seq<char>, Seq<char>>,
    pairs: Seq<(Seq<char>, Seq<char>)>,
    i: int,
)
    requires
        0 <= i < pairs.len(),
        !marks.contains_key(pairs[i].0),
        forall|j: int| 0 <= j < i ==> #[trigger] pairs[j].0 != pairs[i].0,
    ensures
        all_marked(marks, pairs).contains_key(pairs[i].0),
        all_marked(marks, pairs)[pairs[i].0] == pairs[i].1,
    decreases pairs.len(),
{
    let rest = pairs.drop_last();
    if i < pairs.len() - 1 {
        assert forall|j: int| 0 <= j < i implies #[trigger] rest[j].0 != rest[i].0 by {
            assert(rest[j] == pairs[j]);
        }
        lemma_first_mark(marks, rest, i);
    } else {
        assert forall|j: int| 0 <= j < rest.len() implies #[trigger] rest[j].0 != pairs[i].0 by {
            assert(rest[j] == pairs[j]);
        }
        lemma_unnamed(marks, rest, pairs[i].0);
    }
}

/// What a delta does to the marks of packs and to those of layers, each by its own
/// part of the delta. What was revived or deleted has no mark. Of the rest, what
/// was marked keeps its time, what was not gets that of its first sighting, and
/// nothing else is marked.
pub proof fn law_delta_is_applied(state: &mut GcState, delta: GcStateDelta, key: Seq<char>)
    requires
        call_ensures(GcState::apply_delta, (state, &delta), ()),
    ensures
        ({
            let before = mut_ref_current(state).dead_packs@;
            let after = mut_ref_future(state).dead_packs@;
            let gone = texts(delta.revived_packs@).contains(key) || texts(
                delta.deleted_packs@,
            ).contains(key);
            &&& gone ==> !after.contains_key(key)
            &&& !gone && before.contains_key(key) ==> after.contains_key(key) && after[key]
                == before[key]
            &&& forall|i: int|
                0 <= i < delta.newly_dead_packs@.len() && !gone && !before.contains_key(key) && (
                #[trigger] delta.newly_dead_packs@[i]).0@ == key && (forall|j: int|
                    0 <= j < i ==> (#[trigger] delta.newly_dead_packs@[j]).0@ != key)
                    ==> after.contains_key(key) && after[key] == delta.newly_dead_packs@[i].1@
            &&& !before.contains_key(key) && (forall|i: int|
                0 <= i < delta.newly_dead_packs@.len() ==> (
                #[trigger] delta.newly_dead_packs@[i]).0@ != key) ==> !after.contains_key(key)
        }),
        ({
            let before = mut_ref_current(state).dead_layers@;
            let after = mut_ref_future(state).dead_layers@;
            let gone = texts(delta.revived_layers@).contains(key) || texts(
                delta.deleted_layers@,
            ).contains(key);
            &&& gone ==> !after.contains_key(key)
            &&& !gone && before.contains_key(key) ==> after.contains_key(key) && after[key]
                == before[key]
            &&& forall|i: int|
                0 <= i < delta.newly_dead_layers@.len() && !gone && !before.contains_key(key) && (
                #[trigger] delta.newly_dead_layers@[i]).0@ == key && (forall|j: int|
                    0 <= j < i ==> (#[trigger] delta.newly_dead_layers@[j]).0@ != key)
                    ==> after.contains_key(key) && after[key] == delta.newly_dead_layers@[i].1@
            &&& !before.contains_key(key) && (forall|i: int|
                0 <= i < delta.newly_dead_layers@.len() ==> (
                #[trigger] delta.newly_dead_layers@[i]).0@ != key) ==> !after.contains_key(key)
        }),
{
    lemma_delta(
        mut_ref_current(state).dead_packs@,
        delta.newly_dead_packs@,
        delta.revived_packs@,
        delta.deleted_packs@,
        key,
    );
    lemma_delta(
        mut_ref_current(state).dead_layers@,
        delta.newly_dead_layers@,
        delta.revived_layers@,
        delta.deleted_layers@,
        key,
    );
}

proof fn lemma_delta(
    before: Map<Seq<char>, Seq<char>>,
    newly: Seq<(String, String)>,
    revived: Seq<String>,
    deleted: Seq<String>,
    key: Seq<char>,
)
    ensures
        ({
            let after = marks_after(before, text_pairs(newly), texts(revived), texts(deleted));
            let gone = texts(revived).contains(key) || texts(deleted).contains(key);
            &&& gone ==> !after.contains_key(key)
            &&& !gone && before.contains_key(key) ==> after.contains_key(key) && after[key]
                == before[key]
            &&& forall|i: int|
                0 <= i < newly.len() && !gone && !before.contains_key(key) && (
                #[trigger] newly[i]).0@ == key && (forall|j: int|
                    0 <= j < i ==> (#[trigger] newly[j]).0@ != key) ==> after.contains_key(key)
                    && after[key] == newly[i].1@
            &&& !before.contains_key(key) && (forall|i: int|
                0 <= i < newly.len() ==> (#[trigger] newly[i]).0@ != key) ==> !after.contains_key(
                key,
            )
        }),
{
    let pairs = text_pairs(newly);
    let after = marks_after(before, pairs, texts(revived), texts(deleted));
    let gone = texts(revived).contains(key) || texts(deleted).contains(key);
    if before.contains_key(key) {
        law_mark_keeps_first_time(before, pairs, key);
    }
    assert forall|i: int|
        0 <= i < newly.len() && !gone && !before.contains_key(key) && (#[trigger] newly[i]).0@
            == key && (forall|j: int|
            0 <= j < i ==> (#[trigger] newly[j]).0@ != key) implies after.contains_key(key)
        && after[key] == newly[i].1@ by {
        assert(pairs[i] == (newly[i].0@, newly[i].1@));
        assert forall|j: int| 0 <= j < i implies #[trigger] pairs[j].0 != pairs[i].0 by {
            assert(newly[j].0@ != key);
        }
        lemma_first_mark(before, pairs, i);
    }
    if forall|i: int| 0 <= i < newly.len() ==> (#[trigger] newly[i]).0@ != key {
        assert forall|i: int| 0 <= i < pairs.len() implies #[trigger] pairs[i].0 != key by {
            assert(newly[i].0@ != key);
        }
        lemma_unnamed(before, pairs, key);
    }
}

/// Marks are loaded as they were saved: of the pairs with one key the last counts,
/// and a key without a pair has no mark.
pub proof fn law_last_pair_counts(pairs: Seq<(Seq<char>, Seq<char>)>)
    ensures
        forall|i: int|
            0 <= i < pairs.len() && (forall|j: int|
                i < j < pairs.len() ==> (#[trigger] pairs[j]).0 != pairs[i].0) ==> marks_of(
                pairs,
            ).contains_key((#[trigger] pairs[i]).0) && marks_of(pairs)[pairs[i].0] == pairs[i].1,
        forall|key: Seq<char>|
            (forall|i: int| 0 <= i < pairs.len() ==> (#[trigger] pairs[i]).0 != key)
                ==> !#[trigger] marks_of(pairs).contains_key(key),
    decreases pairs.len(),
{
    lemma_marks_of(pairs);
    if pairs.len() > 0 {
        let rest = pairs.drop_last();
        let n = pairs.len() - 1;
        law_last_pair_counts(rest);
        assert forall|i: int|
            0 <= i < pairs.len() && (forall|j: int|
                i < j < pairs.len() ==> (#[trigger] pairs[j]).0 != pairs[i].0) implies marks_of(
            pairs,
        ).contains_key((#[trigger] pairs[i]).0) && marks_of(pairs)[pairs[i].0] == pairs[i].1 by {
            if i < n {
                assert(rest[i] == pairs[i]);
                assert forall|j: int| i < j < rest.len() implies (#[trigger] rest[j]).0
                    != rest[i].0 by {
                    assert(pairs[j].0 != pairs[i].0);
                }
                assert(pairs[n].0 != pairs[i].0);
            }
        }
    }
}

/// A key without a mark is never eligible, nor is one whose mark is no time. A mark
/// from the future counts as made now.
pub proof fn law_only_old_marks_are_eligible(
    marks: Map<Seq<char>, Seq<char>>,
    key: Seq<char>,
    now: Instant,
    grace_period: Duration,
)
    ensures
        !marks.contains_key(key) ==> !eligible(marks, key, now, grace_period),
        marks.contains_key(key) && instant_of(marks[key]) is None ==> !eligible(
            marks,
            key,
            now,
            grace_period,
        ),
        marks.contains_key(key) && (instant_of(marks[key]) matches Some(then) && ordinary(then)
            && ordinary(now) && now.0 < then.0) ==> eligible(marks, key, now, grace_period) == (
        grace_period.secs == 0 && grace_period.nanos == 0),
{
}

/// A pack can be deleted exactly if it is marked, and the time since is not shorter
/// than the grace period; nothing else of the state counts.
pub proof fn law_pack_eligibility(
    state: GcState,
    p: (u32, PackId),
    grace_period: Duration,
    now: Instant,
    yes: bool,
)
    requires
        call_ensures(GcState::is_pack_eligible_at, (&state, p.0, p.1, grace_period, now), yes),
        ordinary(now),
    ensures
        ({
            let key = pack_key_text(p.0, p.1);
            &&& !state.dead_packs@.contains_key(key) ==> !yes
            &&& state.dead_packs@.contains_key(key) && (
            instant_of(state.dead_packs@[key]) matches Some(then) && ordinary(then) && (then.0
                < now.0 || (then.0 == now.0 && then.1 <= now.1))) ==> {
                let then = instant_of(state.dead_packs@[key])->Some_0;
                yes == ((now.0 - then.0) * 1_000_000_000 + now.1 - then.1 >= grace_period.secs
                    * 1_000_000_000 + grace_period.nanos)
            }
        }),
{
}

/// A layer can be deleted exactly if it is marked, and the time since is not shorter
/// than the grace period; nothing else of the state counts.
pub proof fn law_layer_eligibility(
    state: GcState,
    digest: String,
    grace_period: Duration,
    now: Instant,
    yes: bool,
)
    requires
        call_ensures(GcState::is_layer_eligible_at, (&state, &digest, grace_period, now), yes),
        ordinary(now),
    ensures
        !state.dead_layers@.contains_key(digest@) ==> !yes,
        state.dead_layers@.contains_key(digest@) && (
        instant_of(state.dead_layers@[digest@]) matches Some(then) && ordinary(then) && (then.0
            < now.0 || (then.0 == now.0 && then.1 <= now.1))) ==> {
            let then = instant_of(state.dead_layers@[digest@])->Some_0;
            yes == ((now.0 - then.0) * 1_000_000_000 + now.1 - then.1 >= grace_period.secs
                * 1_000_000_000 + grace_period.nanos)
        },
{
}

/// Marking a pack gives it the present time unless it is marked; a pack that is
/// alive has no mark. No other pack and no layer is touched.
pub proof fn law_marking_one_pack(
    dead: &mut GcState,
    alive: &mut GcState,
    p: (u32, PackId),
    now: Instant,
)
    requires
        call_ensures(GcState::mark_dead_pack_at, (dead, p.0, p.1, now), ()),
        call_ensures(GcState::mark_alive_pack, (alive, p.0, p.1), ()),
    ensures
        ({
            let key = pack_key_text(p.0, p.1);
            let before = mut_ref_current(dead).dead_packs@;
            let after = mut_ref_future(dead).dead_packs@;
            &&& after.contains_key(key)
            &&& after[key] == if before.contains_key(key) {
                before[key]
            } else {
                rfc3339_of(now.0, now.1)
            }
            &&& forall|other: Seq<char>| other != key ==> #[trigger]
                after.contains_key(other) == before.contains_key(other)
            &&& forall|other: Seq<char>|
                other != key && before.contains_key(other) ==> #[trigger] after[other]
                    == before[other]
            &&& mut_ref_future(dead).dead_layers@ == mut_ref_current(dead).dead_layers@
        }),
        ({
            let key = pack_key_text(p.0, p.1);
            let before = mut_ref_current(alive).dead_packs@;
            let after = mut_ref_future(alive).dead_packs@;
            &&& !after.contains_key(key)
            &&& forall|other: Seq<char>| other != key ==> #[trigger]
                after.contains_key(other) == before.contains_key(other)
            &&& forall|other: Seq<char>|
                other != key && before.contains_key(other) ==> #[trigger] after[other]
                    == before[other]
            &&& mut_ref_future(alive).dead_layers@ == mut_ref_current(alive).dead_layers@
        }),
{
}

/// What was saved is loaded: a key is marked afterwards exactly if it was before, with the same
/// time, the packs apart from the layers. Without a file nothing is marked.
pub proof fn law_saved_state_loads_back(
    state: GcState,
    saved: SavedState,
    loaded: GcState,
    fresh: GcState,
    key: Seq<char>,
)
    requires
        call_ensures(GcState::save, (&state,), saved),
        call_ensures(GcState::load, (Some(&saved),), loaded),
        call_ensures(GcState::load, (None,), fresh),
    ensures
        loaded.dead_packs@.contains_key(key) == state.dead_packs@.contains_key(key),
        state.dead_packs@.contains_key(key) ==> loaded.dead_packs@[key] == state.dead_packs@[key],
        loaded.dead_layers@.contains_key(key) == state.dead_layers@.contains_key(key),
        state.dead_layers@.contains_key(key) ==> loaded.dead_layers@[key]
            == state.dead_layers@[key],
        !fresh.dead_packs@.contains_key(key) && !fresh.dead_layers@.contains_key(key),
{
}

/// What is saved has a pair for each mark and for nothing else.
pub proof fn law_saved_pairs(state: GcState, saved: SavedState, i: int)
    requires
        call_ensures(GcState::save, (&state,), saved),
    ensures
        0 <= i < saved.dead_packs@.len() ==> state.dead_packs@.contains_key(saved.dead_packs@[i].0@),
        0 <= i < saved.dead_layers@.len() ==> state.dead_layers@.contains_key(
            saved.dead_layers@[i].0@,
        ),
        forall|key: Seq<char>| #[trigger]
            state.dead_packs@.contains_key(key) ==> exists|j: int|
                0 <= j < saved.dead_packs@.len() && (#[trigger] saved.dead_packs@[j]).0@ == key,
        forall|key: Seq<char>| #[trigger]
            state.dead_layers@.contains_key(key) ==> exists|j: int|
                0 <= j < saved.dead_layers@.len() && (#[trigger] saved.dead_layers@[j]).0@ == key,
{
    let packs = text_pairs(saved.dead_packs@);
    let layers = text_pairs(saved.dead_layers@);
    lemma_marks_of(packs);
    lemma_marks_of(layers);
    if 0 <= i < packs.len() {
        assert(marks_of(packs).contains_key(packs[i].0));
    }
    if 0 <= i < layers.len() {
        assert(marks_of(layers).contains_key(layers[i].0));
    }
    assert forall|key: Seq<char>| #[trigger]
        state.dead_packs@.contains_key(key) implies exists|j: int|
        0 <= j < saved.dead_packs@.len() && (#[trigger] saved.dead_packs@[j]).0@ == key by {
        assert(marks_of(packs).contains_key(key));
        let j = choose|j: int| 0 <= j < packs.len() && (#[trigger] packs[j]).0 == key;
        assert(saved.dead_packs@[j].0@ == key);
    }
    assert forall|key: Seq<char>| #[trigger]
        state.dead_layers@.contains_key(key) implies exists|j: int|
        0 <= j < saved.dead_layers@.len() && (#[trigger] saved.dead_layers@[j]).0@ == key by {
        assert(marks_of(layers).contains_key(key));
        let j = choose|j: int| 0 <= j < layers.len() && (#[trigger] layers[j]).0 == key;
        assert(saved.dead_layers@[j].0@ == key);
    }
}

/// Marking a pack now marks it, and no other; a mark that it has stays as it is. A pack is
/// eligible now only if it is marked, and so is a layer.
pub proof fn law_marking_now(
    dead: &mut GcState,
    state: GcState,
    p: (u32, PackId),
    digest: String,
    grace_period: Duration,
    pack_yes: bool,
    layer_yes: bool,
)
    requires
        call_ensures(GcState::mark_dead_pack, (dead, p.0, p.1), ()),
        call_ensures(GcState::is_pack_eligible, (&state, p.0, p.1, grace_period), pack_yes),
        call_ensures(GcState::is_layer_eligible, (&state, &digest, grace_period), layer_yes),
    ensures
        ({
            let key = pack_key_text(p.0, p.1);
            let before = mut_ref_current(dead).dead_packs@;
            let after = mut_ref_future(dead).dead_packs@;
            &&& after.contains_key(key)
            &&& before.contains_key(key) ==> after[key] == before[key]
            &&& forall|other: Seq<char>| other != key ==> #[trigger]
                after.contains_key(other) == before.contains_key(other)
            &&& mut_ref_future(dead).dead_layers@ == mut_ref_current(dead).dead_layers@
        }),
        pack_yes ==> state.dead_packs@.contains_key(pack_key_text(p.0, p.1)),
        layer_yes ==> state.dead_layers@.contains_key(digest@),
        state.dead_packs@.contains_key(pack_key_text(p.0, p.1)) && instant_of(
            state.dead_packs@[pack_key_text(p.0, p.1)],
        ) is Some && grace_period.secs == 0 && grace_period.nanos == 0 ==> pack_yes,
        state.dead_layers@.contains_key(digest@) && instant_of(state.dead_layers@[digest@]) is Some
            && grace_period.secs == 0 && grace_period.nanos == 0 ==> layer_yes,
{
    let key = pack_key_text(p.0, p.1);
    let now = choose|now: Instant|
        valid_instant(now) && mut_ref_future(dead).dead_packs@ == #[trigger] marked_once(
            mut_ref_current(dead).dead_packs@,
            key,
            rfc3339_of(now.0, now.1),
        );
    assert(mut_ref_future(dead).dead_packs@ == marked_once(
        mut_ref_current(dead).dead_packs@,
        key,
        rfc3339_of(now.0, now.1),
    ));
}

/// A pack that is injected is marked with the time that is given, whatever it was marked with, and
/// nothing else changes.
pub proof fn law_injected_pack(state: &mut GcState, p: (u32, PackId), time: Instant)
    requires
        call_ensures(inject_dead_pack_for_test, (state, p.0, p.1, time), ()),
    ensures
        ({
            let key = pack_key_text(p.0, p.1);
            let before = mut_ref_current(state).dead_packs@;
            let after = mut_ref_future(state).dead_packs@;
            &&& after.contains_key(key) && after[key] == rfc3339_of(time.0, time.1)
            &&& forall|other: Seq<char>| other != key ==> #[trigger]
                after.contains_key(other) == before.contains_key(other)
            &&& forall|other: Seq<char>|
                other != key && before.contains_key(other) ==> #[trigger] after[other]
                    == before[other]
            &&& mut_ref_future(state).dead_layers@ == mut_ref_current(state).dead_layers@
        }),
{
}

} // verus!
