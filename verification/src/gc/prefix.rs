//! Reconciliation of one export: which of its packs are dead, and which of those
//! are deleted.
//!
//! The first pass goes over the live manifests and the packs that are listed in
//! the store, and leaves the packs that no manifest refers to. The second goes
//! over the snapshots, one at a time, and takes out what they refer to. What is
//! left is dead. Any failure to read a manifest or a snapshot means that nothing
//! is deleted.

use vstd::prelude::*;
use crate::gc::listing::{pack_at, parse_pack_path};
use crate::gc::pack_set::{PackRef, PackSet};
use crate::gc::report::{zero_stats, GcStats};
use crate::gc::state::{
    eligible, no_delta, pack_key, pack_key_text, text_pairs, texts, Delta, GcState, GcStateDelta,
};
use crate::text::{behind_prefix, strip_prefix};
use crate::time::{
    instant_of, nanos_between, rfc3339_of, to_rfc3339, utc_now, valid_instant, Duration, Instant,
};

verus! {

/// What came of reading a manifest.
#[derive(Debug)]
pub enum Fetched {
    /// The packs that it refers to.
    Packs(Vec<PackRef>),
    /// It was deleted between listing and reading.
    Gone,
    /// It could not be listed, read or parsed.
    Failed,
}

impl Fetched {
    /// The packs that are referred to.
    pub open spec fn packs(&self) -> Set<PackRef> {
        match self {
            Fetched::Packs(packs) => packs@.to_set(),
            _ => Set::empty(),
        }
    }
}

/// How many manifests were read.
pub open spec fn read_count(fetched: Seq<Fetched>) -> nat
    decreases fetched.len(),
{
    if fetched.len() == 0 {
        0
    } else {
        read_count(fetched.drop_last()) + if fetched.last() is Packs {
            1nat
        } else {
            0nat
        }
    }
}

/// How many manifests could not be read.
pub open spec fn failed_count(fetched: Seq<Fetched>) -> nat
    decreases fetched.len(),
{
    if fetched.len() == 0 {
        0
    } else {
        failed_count(fetched.drop_last()) + if fetched.last() is Failed {
            1nat
        } else {
            0nat
        }
    }
}

/// The packs that some of the manifests refer to.
pub open spec fn referenced(fetched: Seq<Fetched>) -> Set<PackRef>
    decreases fetched.len(),
{
    if fetched.len() == 0 {
        Set::empty()
    } else {
        referenced(fetched.drop_last()) + fetched.last().packs()
    }
}

/// The pack at a path of the listing.
pub open spec fn listed_pack(path: Seq<char>, prefix: Seq<char>) -> Option<PackRef> {
    match behind_prefix(path, prefix) {
        Some(rel) => pack_at(rel),
        None => None,
    }
}

/// List all packs across chunk directories, given the paths that are listed under
/// the chunks.
pub fn list_all_packs(paths: &Vec<String>, prefix: &str) -> (packs: PackSet)
    ensures
        packs.wf(),
        forall|p: PackRef| #[trigger]
            packs@.contains(p) == exists|i: int|
                0 <= i < paths@.len() && listed_pack(#[trigger] texts(paths@)[i], prefix@) == Some(
                    p,
                ),
{
    let mut packs = PackSet::new();
    let mut i: usize = 0;
    while i < paths.len()
        invariant
            i <= paths@.len(),
            packs.wf(),
            forall|p: PackRef| #[trigger]
                packs@.contains(p) == exists|j: int|
                    0 <= j < i && listed_pack(#[trigger] texts(paths@)[j], prefix@) == Some(p),
        decreases paths@.len() - i,
    {
        let ghost before = packs@;
        let found: Option<PackRef> = match strip_prefix(paths[i].as_str(), prefix) {
            Some(rel) => parse_pack_path(rel.as_str()),
            None => None,
        };
        assert(found == listed_pack(texts(paths@)[i as int], prefix@));
        if let Some(p) = found {
            packs.insert(p);
        }
        proof {
            assert forall|p: PackRef| #[trigger] packs@.contains(p) == exists|j: int|
                0 <= j < i + 1 && listed_pack(#[trigger] texts(paths@)[j], prefix@) == Some(p) by {
                if before.contains(p) {
                    let j = choose|j: int|
                        0 <= j < i && listed_pack(#[trigger] texts(paths@)[j], prefix@) == Some(p);
                    assert(0 <= j < i + 1 && listed_pack(texts(paths@)[j], prefix@) == Some(p));
                }
            }
        }
        i = i + 1;
    }
    packs
}

/// What a listing comes to.
#[verifier::ext_equal]
pub struct Listed {
    /// How many paths are those of packs.
    pub known: nat,
    /// The packs that no manifest refers to.
    pub unreferenced: Set<PackRef>,
    /// The keys of the packs that a manifest refers to and that are marked dead.
    pub revived: Seq<Seq<char>>,
}

/// What a listing comes to, given the packs that manifests refer to and the marks.
pub open spec fn listed(
    paths: Seq<Seq<char>>,
    prefix: Seq<char>,
    live: Set<PackRef>,
    marks: Map<Seq<char>, Seq<char>>,
) -> Listed
    decreases paths.len(),
{
    if paths.len() == 0 {
        Listed { known: 0, unreferenced: Set::empty(), revived: Seq::empty() }
    } else {
        let before = listed(paths.drop_last(), prefix, live, marks);
        match listed_pack(paths.last(), prefix) {
            Some(p) => {
                let key = pack_key_text(p.0, p.1);
                Listed {
                    known: before.known + 1,
                    unreferenced: if live.contains(p) {
                        before.unreferenced
                    } else {
                        before.unreferenced.insert(p)
                    },
                    revived: if live.contains(p) && marks.contains_key(key) {
                        before.revived.push(key)
                    } else {
                        before.revived
                    },
                }
            },
            None => before,
        }
    }
}

/// What checking the snapshots comes to.
#[verifier::ext_equal]
pub struct Checked {
    /// The packs that no snapshot refers to either.
    pub left: Set<PackRef>,
    /// How many snapshots were read.
    pub checked: nat,
    /// Whether a snapshot could not be read.
    pub failed: bool,
}

/// What checking the snapshots from place `i` on comes to. The check ends early
/// when nothing is left, and when a snapshot cannot be read.
pub open spec fn checked(maybe_dead: Set<PackRef>, snapshots: Seq<Fetched>, i: int) -> Checked
    decreases snapshots.len() - i,
{
    if i < 0 || i >= snapshots.len() {
        Checked { left: maybe_dead, checked: 0, failed: false }
    } else {
        match snapshots[i] {
            Fetched::Packs(packs) => {
                let left = maybe_dead.difference(packs@.to_set());
                if left == Set::<PackRef>::empty() {
                    Checked { left, checked: 1, failed: false }
                } else {
                    let rest = checked(left, snapshots, i + 1);
                    Checked { checked: rest.checked + 1, ..rest }
                }
            },
            Fetched::Gone => checked(maybe_dead, snapshots, i + 1),
            Fetched::Failed => Checked { left: maybe_dead, checked: 0, failed: true },
        }
    }
}

/// What is decided about dead packs.
#[verifier::ext_equal]
pub struct Decision {
    /// The keys of those seen for the first time, with the time.
    pub newly_dead: Seq<(Seq<char>, Seq<char>)>,
    /// How many could be deleted.
    pub eligible: nat,
    /// Those that are deleted.
    pub deletes: Seq<PackRef>,
}

/// Whether a dead pack can be deleted: it has been marked for the grace period, or
/// there is no grace period.
pub open spec fn can_delete(
    p: PackRef,
    marks: Map<Seq<char>, Seq<char>>,
    grace_period: Duration,
    now: Instant,
) -> bool {
    let key = pack_key_text(p.0, p.1);
    eligible(marks, key, now, grace_period) || (grace_period.spec_is_zero() && !marks.contains_key(
        key,
    ))
}

/// What is decided about dead packs, taken in the given order, with a budget of
/// deletes.
pub open spec fn decided(
    order: Seq<PackRef>,
    marks: Map<Seq<char>, Seq<char>>,
    grace_period: Duration,
    now: Instant,
    budget: nat,
) -> Decision
    decreases order.len(),
{
    if order.len() == 0 {
        Decision { newly_dead: Seq::empty(), eligible: 0, deletes: Seq::empty() }
    } else {
        let before = decided(order.drop_last(), marks, grace_period, now, budget);
        let p = order.last();
        let key = pack_key_text(p.0, p.1);
        let can = can_delete(p, marks, grace_period, now);
        Decision {
            newly_dead: if marks.contains_key(key) {
                before.newly_dead
            } else {
                before.newly_dead.push((key, rfc3339_of(now.0, now.1)))
            },
            eligible: before.eligible + if can {
                1nat
            } else {
                0nat
            },
            deletes: if can && before.deletes.len() < budget {
                before.deletes.push(p)
            } else {
                before.deletes
            },
        }
    }
}

/// Atomically claim one delete slot from the shared budget.
/// Returns true if a slot was claimed (caller may delete), false if exhausted.
pub fn try_claim_delete_slot(budget: &mut usize) -> (claimed: bool)
    ensures
        claimed == (*old(budget) > 0),
        *final(budget) == if *old(budget) > 0 {
            (*old(budget) - 1) as usize
        } else {
            0
        },
{
    match delete_slot(*budget) {
        Some(left) => {
            *budget = left;
            true
        },
        None => false,
    }
}

/// The budget after one delete slot is claimed, if there is one.
pub fn delete_slot(budget: usize) -> (left: Option<usize>)
    ensures
        left == (if budget > 0 {
            Some((budget - 1) as usize)
        } else {
            None
        }),
{
    if budget > 0 {
        Some(budget - 1)
    } else {
        None
    }
}

/// What the check of a snapshot says about going on.
#[derive(Debug, Clone, Copy, PartialEq, Eq, Structural)]
pub enum SnapshotCheck {
    /// Go on with the next snapshot.
    Continue,
    /// Nothing is left that could be dead.
    AllReferenced,
    /// Nothing may be deleted.
    Abort,
}

/// The reconciliation of one export under way.
#[derive(Debug)]
pub struct PrefixScan {
    pub stats: GcStats,
    pub delta: GcStateDelta,
    pub live: PackSet,
    pub maybe_dead: PackSet,
    pub manifest_failed: bool,
}

impl PrefixScan {
    /// The sets hold packs.
    pub open spec fn wf(&self) -> bool {
        self.live.wf() && self.maybe_dead.wf()
    }

    /// Starts a reconciliation.
    pub fn new() -> (scan: Self)
        ensures
            scan.wf(),
            scan.stats == zero_stats(),
            scan.delta@ == no_delta(),
            scan.live@ == Set::<PackRef>::empty(),
            scan.maybe_dead@ == Set::<PackRef>::empty(),
            !scan.manifest_failed,
    {
        PrefixScan {
            stats: GcStats::default(),
            delta: GcStateDelta::default(),
            live: PackSet::new(),
            maybe_dead: PackSet::new(),
            manifest_failed: false,
        }
    }

    /// Takes in a manifest: the packs that it refers to are live.
    pub fn manifest(&mut self, fetched: &Fetched)
        requires
            old(self).wf(),
            old(self).stats.manifests_scanned < usize::MAX,
            old(self).stats.manifest_errors < usize::MAX,
        ensures
            final(self).wf(),
            final(self).delta == old(self).delta,
            final(self).maybe_dead == old(self).maybe_dead,
            final(self).live@ == old(self).live@ + fetched.packs(),
            final(self).manifest_failed == (old(self).manifest_failed || fetched is Failed),
            final(self).stats == (GcStats {
                manifests_scanned: (old(self).stats.manifests_scanned + if fetched is Packs {
                    1int
                } else {
                    0int
                }) as usize,
                manifest_errors: (old(self).stats.manifest_errors + if fetched is Failed {
                    1int
                } else {
                    0int
                }) as usize,
                ..old(self).stats
            }),
    {
        let ghost before = self.live@;
        match fetched {
            Fetched::Packs(packs) => {
                let mut i: usize = 0;
                assert(packs@.take(0).to_set() =~= Set::empty());
                assert(self.live@ =~= before + packs@.take(0).to_set());
                while i < packs.len()
                    invariant
                        i <= packs@.len(),
                        self.live.wf(),
                        self.live@ == before + packs@.take(i as int).to_set(),
                        self.stats == old(self).stats,
                        self.delta == old(self).delta,
                        self.maybe_dead == old(self).maybe_dead,
                        self.manifest_failed == old(self).manifest_failed,
                    decreases packs@.len() - i,
                {
                    self.live.insert(packs[i]);
                    proof {
                        lemma_take_to_set(packs@, i as int);
                        assert(self.live@ =~= before + packs@.take(i + 1).to_set());
                    }
                    i = i + 1;
                }
                assert(packs@.take(i as int) =~= packs@);
                self.stats.manifests_scanned = self.stats.manifests_scanned + 1;
            },
            Fetched::Gone => {
                assert(self.live@ =~= before + fetched.packs());
            },
            Fetched::Failed => {
                self.stats.manifest_errors = self.stats.manifest_errors + 1;
                self.manifest_failed = true;
                assert(self.live@ =~= before + fetched.packs());
            },
        }
    }

    /// Ends the manifests. Tells whether to go on: not if one could not be read.
    pub fn manifests_done(&mut self) -> (go_on: bool)
        requires
            old(self).wf(),
            old(self).stats.live_packs == 0,
        ensures
            final(self).wf(),
            go_on == !old(self).manifest_failed,
            final(self).delta == old(self).delta,
            final(self).live == old(self).live,
            final(self).maybe_dead == old(self).maybe_dead,
            final(self).manifest_failed == old(self).manifest_failed,
            final(self).live@.finite(),
            final(self).stats == (GcStats {
                live_packs: if go_on {
                    old(self).live@.len() as usize
                } else {
                    0
                },
                ..old(self).stats
            }),
            old(self).live@.len() <= usize::MAX,
    {
        let n: usize = self.live.len();
        if self.manifest_failed {
            return false;
        }
        self.stats.live_packs = n;
        true
    }

    /// Takes in a path of the listing: a live pack loses the mark that it may have,
    /// another one may be dead.
    pub fn pack_listed(&mut self, path: &str, prefix: &str, state: &GcState)
        requires
            old(self).wf(),
            state.wf(),
            old(self).stats.known_packs < usize::MAX,
        ensures
            final(self).wf(),
            final(self).live == old(self).live,
            final(self).manifest_failed == old(self).manifest_failed,
            final(self).stats == (GcStats {
                known_packs: (old(self).stats.known_packs + if listed_pack(
                    path@,
                    prefix@,
                ) is Some {
                    1int
                } else {
                    0int
                }) as usize,
                ..old(self).stats
            }),
            match listed_pack(path@, prefix@) {
                Some(p) => if old(self).live@.contains(p) {
                    &&& final(self).maybe_dead@ == old(self).maybe_dead@
                    &&& final(self).delta@ == if state.dead_packs@.contains_key(
                        pack_key_text(p.0, p.1),
                    ) {
                        (Delta {
                            revived_packs: old(self).delta@.revived_packs.push(
                                pack_key_text(p.0, p.1),
                            ),
                            ..old(self).delta@
                        })
                    } else {
                        old(self).delta@
                    }
                } else {
                    &&& final(self).maybe_dead@ == old(self).maybe_dead@.insert(p)
                    &&& final(self).delta@ == old(self).delta@
                },
                None => final(self).maybe_dead@ == old(self).maybe_dead@ && final(self).delta@
                    == old(self).delta@,
            },
    {
        let rel: String = match strip_prefix(path, prefix) {
            Some(rel) => rel,
            None => {
                return;
            },
        };
        let p: PackRef = match parse_pack_path(rel.as_str()) {
            Some(p) => p,
            None => {
                return;
            },
        };
        self.stats.known_packs = self.stats.known_packs + 1;
        if self.live.contains(p) {
            let key: String = pack_key(p.0, p.1);
            if state.dead_packs.contains_key(&key) {
                let ghost before = self.delta.revived_packs@;
                self.delta.revived_packs.push(key);
                proof {
                    assert(texts(self.delta.revived_packs@) =~= texts(before).push(
                        pack_key_text(p.0, p.1),
                    ));
                }
            }
        } else {
            self.maybe_dead.insert(p);
        }
    }

    /// Ends the listing. Tells whether to go on with the snapshots: not if every
    /// pack is live.
    pub fn packs_done(&mut self) -> (go_on: bool)
        requires
            old(self).wf(),
            old(self).stats.prefixes_scanned < usize::MAX,
        ensures
            final(self).wf(),
            go_on == (old(self).maybe_dead@ != Set::<PackRef>::empty()),
            final(self).delta == old(self).delta,
            final(self).live == old(self).live,
            final(self).maybe_dead == old(self).maybe_dead,
            final(self).manifest_failed == old(self).manifest_failed,
            final(self).stats == (GcStats {
                prefixes_scanned: (old(self).stats.prefixes_scanned + if go_on {
                    0int
                } else {
                    1int
                }) as usize,
                ..old(self).stats
            }),
    {
        if self.maybe_dead.is_empty() {
            self.stats.prefixes_scanned = self.stats.prefixes_scanned + 1;
            return false;
        }
        true
    }

    /// Takes in a snapshot: the packs that it refers to are not dead.
    pub fn snapshot(&mut self, fetched: &Fetched) -> (next: SnapshotCheck)
        requires
            old(self).wf(),
            old(self).stats.snapshots_checked < usize::MAX,
            old(self).stats.prefixes_scanned < usize::MAX,
        ensures
            final(self).wf(),
            final(self).delta == old(self).delta,
            final(self).live == old(self).live,
            final(self).manifest_failed == old(self).manifest_failed,
            final(self).maybe_dead@ == old(self).maybe_dead@.difference(fetched.packs()),
            next == (match fetched {
                Fetched::Packs(_) => if final(self).maybe_dead@ == Set::<PackRef>::empty() {
                    SnapshotCheck::AllReferenced
                } else {
                    SnapshotCheck::Continue
                },
                Fetched::Gone => SnapshotCheck::Continue,
                Fetched::Failed => SnapshotCheck::Abort,
            }),
            final(self).stats == (GcStats {
                snapshots_checked: (old(self).stats.snapshots_checked + if fetched is Packs {
                    1int
                } else {
                    0int
                }) as usize,
                prefixes_scanned: (old(self).stats.prefixes_scanned + if fetched is Failed {
                    1int
                } else {
                    0int
                }) as usize,
                ..old(self).stats
            }),
    {
        let ghost before = self.maybe_dead@;
        match fetched {
            Fetched::Packs(packs) => {
                let mut i: usize = 0;
                assert(packs@.take(0).to_set() =~= Set::empty());
                assert(self.maybe_dead@ =~= before.difference(packs@.take(0).to_set()));
                while i < packs.len()
                    invariant
                        i <= packs@.len(),
                        self.maybe_dead.wf(),
                        self.maybe_dead@ == before.difference(packs@.take(i as int).to_set()),
                        self.live == old(self).live,
                        self.stats == old(self).stats,
                        self.delta == old(self).delta,
                        self.manifest_failed == old(self).manifest_failed,
                    decreases packs@.len() - i,
                {
                    self.maybe_dead.remove(packs[i]);
                    proof {
                        lemma_take_to_set(packs@, i as int);
                        assert(self.maybe_dead@ =~= before.difference(packs@.take(i + 1).to_set()));
                    }
                    i = i + 1;
                }
                assert(packs@.take(i as int) =~= packs@);
                self.stats.snapshots_checked = self.stats.snapshots_checked + 1;
                if self.maybe_dead.is_empty() {
                    SnapshotCheck::AllReferenced
                } else {
                    SnapshotCheck::Continue
                }
            },
            Fetched::Gone => {
                assert(self.maybe_dead@ =~= before.difference(fetched.packs()));
                SnapshotCheck::Continue
            },
            Fetched::Failed => {
                assert(self.maybe_dead@ =~= before.difference(fetched.packs()));
                self.stats.prefixes_scanned = self.stats.prefixes_scanned + 1;
                SnapshotCheck::Abort
            },
        }
    }

    /// Decides about the packs that are left: marks those that were not marked,
    /// and claims a delete slot for each that can be deleted. In which order the
    /// packs are taken is open.
    pub fn decide(
        &mut self,
        state: &GcState,
        grace_period: Duration,
        budget: &mut usize,
        now: Instant,
    ) -> (deletes: Vec<PackRef>)
        requires
            old(self).wf(),
            state.wf(),
            valid_instant(now),
            old(self).delta@.newly_dead_packs.len() == 0,
            old(self).stats.dead_found == 0,
            old(self).stats.eligible_for_deletion == 0,
        ensures
            final(self).wf(),
            final(self).live == old(self).live,
            final(self).maybe_dead == old(self).maybe_dead,
            final(self).manifest_failed == old(self).manifest_failed,
            old(self).maybe_dead@.finite(),
            old(self).maybe_dead@.len() <= usize::MAX,
            exists|order: Seq<PackRef>|
                {
                    let d = #[trigger] decided(
                        order,
                        state.dead_packs@,
                        grace_period,
                        now,
                        *old(budget) as nat,
                    );
                    &&& order.no_duplicates()
                    &&& order.to_set() == old(self).maybe_dead@
                    &&& d.eligible <= old(self).maybe_dead@.len()
                    &&& deletes@ == d.deletes
                    &&& *final(budget) == *old(budget) - d.deletes.len()
                    &&& final(self).delta@ == (Delta {
                        newly_dead_packs: d.newly_dead,
                        ..old(self).delta@
                    })
                    &&& final(self).stats == (GcStats {
                        dead_found: old(self).maybe_dead@.len() as usize,
                        eligible_for_deletion: d.eligible as usize,
                        ..old(self).stats
                    })
                },
    {
        let now_text: String = to_rfc3339(now);
        let dead: Vec<PackRef> = self.maybe_dead.to_vec();
        let dead_found: usize = self.maybe_dead.len();
        self.stats.dead_found = dead_found;
        let ghost order = dead@;
        let ghost marks = state.dead_packs@;
        proof {
            order.unique_seq_to_set();
            assert(order.take(0) =~= Seq::empty());
            assert(self.delta@.newly_dead_packs =~= Seq::empty());
        }
        let mut deletes: Vec<PackRef> = Vec::new();
        let mut i: usize = 0;
        while i < dead.len()
            invariant
                i <= dead@.len(),
                order == dead@,
                marks == state.dead_packs@,
                state.wf(),
                valid_instant(now),
                now_text@ == rfc3339_of(now.0, now.1),
                self.live == old(self).live,
                self.maybe_dead == old(self).maybe_dead,
                self.manifest_failed == old(self).manifest_failed,
                ({
                    let d = decided(
                        order.take(i as int),
                        marks,
                        grace_period,
                        now,
                        *old(budget) as nat,
                    );
                    &&& d.eligible <= i
                    &&& d.deletes.len() <= *old(budget)
                    &&& deletes@ == d.deletes
                    &&& *budget == *old(budget) - d.deletes.len()
                    &&& self.delta@ == (Delta {
                        newly_dead_packs: d.newly_dead,
                        ..old(self).delta@
                    })
                    &&& self.stats == (GcStats {
                        dead_found,
                        eligible_for_deletion: d.eligible as usize,
                        ..old(self).stats
                    })
                }),
            decreases dead@.len() - i,
        {
            let (chunk_idx, pack_id) = dead[i];
            proof {
                assert(order.take(i + 1).drop_last() =~= order.take(i as int));
                assert(order.take(i + 1).last() == order[i as int]);
            }
            let key: String = pack_key(chunk_idx, pack_id);
            let is_new: bool = !state.dead_packs.contains_key(&key);
            if is_new {
                let ghost before = self.delta.newly_dead_packs@;
                let ghost before_delta = self.delta@;
                self.delta.newly_dead_packs.push((key, now_text.clone()));
                proof {
                    assert(text_pairs(self.delta.newly_dead_packs@) =~= text_pairs(before).push(
                        (pack_key_text(chunk_idx, pack_id), now_text@),
                    ));
                }
            }
            let is_eligible: bool = state.is_pack_eligible_at(
                chunk_idx,
                pack_id,
                grace_period,
                now,
            ) || (grace_period.is_zero() && is_new);
            if is_eligible {
                self.stats.eligible_for_deletion = self.stats.eligible_for_deletion + 1;
                if try_claim_delete_slot(budget) {
                    deletes.push((chunk_idx, pack_id));
                }
            }
            i = i + 1;
        }
        assert(order.take(i as int) =~= order);
        deletes
    }

    /// Ends a scan that did not get as far as deciding about dead packs: nothing is
    /// deleted.
    pub fn unfinished(self) -> (plan: PrefixPlan)
        ensures
            plan.delta == self.delta,
            plan.stats == self.stats,
            plan.deletes@ == Seq::<PackRef>::empty(),
            !plan.decided,
    {
        PrefixPlan { delta: self.delta, stats: self.stats, deletes: Vec::new(), decided: false }
    }

    /// Ends a scan with what `decide` comes to.
    pub fn conclude(
        self,
        state: &GcState,
        grace_period: Duration,
        budget: &mut usize,
        now: Instant,
    ) -> (plan: PrefixPlan)
        requires
            self.wf(),
            state.wf(),
            valid_instant(now),
            self.delta@.newly_dead_packs.len() == 0,
            self.stats.dead_found == 0,
            self.stats.eligible_for_deletion == 0,
        ensures
            plan.decided,
            self.maybe_dead@.finite(),
            self.maybe_dead@.len() <= usize::MAX,
            exists|order: Seq<PackRef>|
                {
                    let d = #[trigger] decided(
                        order,
                        state.dead_packs@,
                        grace_period,
                        now,
                        *old(budget) as nat,
                    );
                    &&& order.no_duplicates()
                    &&& order.to_set() == self.maybe_dead@
                    &&& d.eligible <= self.maybe_dead@.len()
                    &&& plan.deletes@ == d.deletes
                    &&& *final(budget) == *old(budget) - d.deletes.len()
                    &&& plan.delta@ == (Delta { newly_dead_packs: d.newly_dead, ..self.delta@ })
                    &&& plan.stats == (GcStats {
                        dead_found: self.maybe_dead@.len() as usize,
                        eligible_for_deletion: d.eligible as usize,
                        ..self.stats
                    })
                },
    {
        let mut scan: PrefixScan = self;
        let deletes: Vec<PackRef> = scan.decide(state, grace_period, budget, now);
        PrefixPlan { delta: scan.delta, stats: scan.stats, deletes, decided: true }
    }
}

proof fn lemma_take_to_set(packs: Seq<PackRef>, i: int)
    requires
        0 <= i < packs.len(),
    ensures
        packs.take(i + 1).to_set() == packs.take(i).to_set().insert(packs[i]),
{
    let done = packs.take(i);
    let next = packs.take(i + 1);
    assert forall|p: PackRef| #[trigger] next.to_set().contains(p) == done.to_set().insert(
        packs[i],
    ).contains(p) by {
        assert(next[i] == packs[i]);
        if done.contains(p) {
            let j = choose|j: int| 0 <= j < done.len() && done[j] == p;
            assert(next[j] == p);
        }
        if next.contains(p) {
            let j = choose|j: int| 0 <= j < next.len() && next[j] == p;
            if j < i {
                assert(done[j] == p);
            }
        }
    }
    assert(next.to_set() =~= done.to_set().insert(packs[i]));
}


/// What is known of one export: what came of reading its manifests and snapshots,
/// and the paths that are listed under its chunks.
#[derive(Debug)]
pub struct PrefixListing {
    pub chunks_prefix: String,
    pub manifests: Vec<Fetched>,
    pub paths: Vec<String>,
    pub snapshots: Vec<Fetched>,
}

impl PrefixListing {
    /// The packs that a live manifest refers to.
    pub open spec fn live(&self) -> Set<PackRef> {
        referenced(self.manifests@)
    }

    /// What the listing comes to, given the marks.
    pub open spec fn listed(&self, marks: Map<Seq<char>, Seq<char>>) -> Listed {
        listed(texts(self.paths@), self.chunks_prefix@, self.live(), marks)
    }

    /// What checking the snapshots comes to.
    pub open spec fn checked(&self, marks: Map<Seq<char>, Seq<char>>) -> Checked {
        checked(self.listed(marks).unreferenced, self.snapshots@, 0)
    }
}

/// What a reconciliation comes to, before anything is deleted.
#[derive(Debug)]
pub struct PrefixPlan {
    pub delta: GcStateDelta,
    pub stats: GcStats,
    /// The packs to delete.
    pub deletes: Vec<PackRef>,
    /// Whether the reconciliation got as far as deciding about dead packs.
    pub decided: bool,
}

/// Counters after manifests and listing.
pub open spec fn first_pass_stats(
    listing: PrefixListing,
    marks: Map<Seq<char>, Seq<char>>,
) -> GcStats {
    GcStats {
        manifests_scanned: read_count(listing.manifests@) as usize,
        live_packs: listing.live().len() as usize,
        known_packs: listing.listed(marks).known as usize,
        ..zero_stats()
    }
}

/// Whether `plan` is what a reconciliation comes to that starts with a budget of
/// deletes and leaves `left` of it.
pub open spec fn is_plan(
    listing: PrefixListing,
    marks: Map<Seq<char>, Seq<char>>,
    grace_period: Duration,
    now: Instant,
    budget: usize,
    plan: PrefixPlan,
    left: usize,
) -> bool {
    let first = first_pass_stats(listing, marks);
    let revived = Delta { revived_packs: listing.listed(marks).revived, ..no_delta() };
    let checked = listing.checked(marks);
    if failed_count(listing.manifests@) > 0 {
        &&& !plan.decided
        &&& plan.deletes@.len() == 0
        &&& left == budget
        &&& plan.delta@ == no_delta()
        &&& plan.stats == (GcStats {
            manifests_scanned: read_count(listing.manifests@) as usize,
            manifest_errors: failed_count(listing.manifests@) as usize,
            ..zero_stats()
        })
    } else if listing.listed(marks).unreferenced == Set::<PackRef>::empty() {
        &&& !plan.decided
        &&& plan.deletes@.len() == 0
        &&& left == budget
        &&& plan.delta@ == revived
        &&& plan.stats == (GcStats { prefixes_scanned: 1, ..first })
    } else if checked.failed {
        &&& !plan.decided
        &&& plan.deletes@.len() == 0
        &&& left == budget
        &&& plan.delta@ == revived
        &&& plan.stats == (GcStats {
            prefixes_scanned: 1,
            snapshots_checked: checked.checked as usize,
            ..first
        })
    } else {
        &&& plan.decided
        &&& exists|order: Seq<PackRef>|
            is_decision(listing, marks, grace_period, now, budget, plan, left, order)
    }
}

/// Whether `plan` holds what is decided about the dead packs in the given order.
pub open spec fn is_decision(
    listing: PrefixListing,
    marks: Map<Seq<char>, Seq<char>>,
    grace_period: Duration,
    now: Instant,
    budget: usize,
    plan: PrefixPlan,
    left: usize,
    order: Seq<PackRef>,
) -> bool {
    let checked = listing.checked(marks);
    let d = decided(order, marks, grace_period, now, budget as nat);
    &&& order.no_duplicates()
    &&& order.to_set() == checked.left
    &&& plan.deletes@ == d.deletes
    &&& left == budget - d.deletes.len()
    &&& plan.delta@ == (Delta {
        newly_dead_packs: d.newly_dead,
        revived_packs: listing.listed(marks).revived,
        ..no_delta()
    })
    &&& plan.stats == (GcStats {
        snapshots_checked: checked.checked as usize,
        dead_found: checked.left.len() as usize,
        eligible_for_deletion: d.eligible as usize,
        ..first_pass_stats(listing, marks)
    })
}

/// Reconcile a single export at `now`: find the orphaned packs, and which of them
/// to delete. The shared budget is decremented as deletes are claimed, so the
/// total across exports never exceeds the global cap.
pub fn reconcile_prefix_at(
    listing: &PrefixListing,
    state: &GcState,
    grace_period: Duration,
    budget: &mut usize,
    now: Instant,
) -> (plan: PrefixPlan)
    requires
        state.wf(),
        valid_instant(now),
    ensures
        is_plan(
            *listing,
            state.dead_packs@,
            grace_period,
            now,
            *old(budget),
            plan,
            *final(budget),
        ),
        forall|k: int, p: PackRef|
            0 <= k < listing.manifests@.len() && (
            #[trigger] listing.manifests@[k] matches Fetched::Packs(packs) && packs@.contains(p))
                ==> !(#[trigger] plan.deletes@.contains(p)),
        forall|k: int, p: PackRef|
            0 <= k < listing.snapshots@.len() && (
            #[trigger] listing.snapshots@[k] matches Fetched::Packs(packs) && packs@.contains(p))
                ==> !(#[trigger] plan.deletes@.contains(p)),
{
    let ghost marks = state.dead_packs@;
    let mut scan = PrefixScan::new();
    let mut i: usize = 0;
    assert(listing.manifests@.take(0) =~= Seq::empty());
    while i < listing.manifests.len()
        invariant
            i <= listing.manifests@.len(),
            scan.wf(),
            scan.live@ == referenced(listing.manifests@.take(i as int)),
            scan.maybe_dead@ == Set::<PackRef>::empty(),
            scan.delta@ == no_delta(),
            scan.manifest_failed == (failed_count(listing.manifests@.take(i as int)) > 0),
            read_count(listing.manifests@.take(i as int)) <= i,
            failed_count(listing.manifests@.take(i as int)) <= i,
            scan.stats == (GcStats {
                manifests_scanned: read_count(listing.manifests@.take(i as int)) as usize,
                manifest_errors: failed_count(listing.manifests@.take(i as int)) as usize,
                ..zero_stats()
            }),
        decreases listing.manifests@.len() - i,
    {
        proof {
            let next = listing.manifests@.take(i + 1);
            assert(next.drop_last() =~= listing.manifests@.take(i as int));
            assert(next.last() == listing.manifests@[i as int]);
        }
        scan.manifest(&listing.manifests[i]);
        i = i + 1;
    }
    assert(listing.manifests@.take(i as int) =~= listing.manifests@);
    if !scan.manifests_done() {
        return scan.unfinished();
    }
    let ghost live = referenced(listing.manifests@);
    let ghost paths = texts(listing.paths@);
    let mut i: usize = 0;
    assert(paths.take(0) =~= Seq::empty());
    while i < listing.paths.len()
        invariant
            i <= listing.paths@.len(),
            paths == texts(listing.paths@),
            marks == state.dead_packs@,
            state.wf(),
            scan.wf(),
            scan.live@ == live,
            live.len() <= usize::MAX,
            ({
                let l = listed(paths.take(i as int), listing.chunks_prefix@, live, marks);
                &&& l.known <= i
                &&& scan.maybe_dead@ == l.unreferenced
                &&& scan.delta@ == (Delta { revived_packs: l.revived, ..no_delta() })
                &&& scan.stats == (GcStats {
                    manifests_scanned: read_count(listing.manifests@) as usize,
                    live_packs: live.len() as usize,
                    known_packs: l.known as usize,
                    ..zero_stats()
                })
            }),
        decreases listing.paths@.len() - i,
    {
        proof {
            let next = paths.take(i + 1);
            assert(next.drop_last() =~= paths.take(i as int));
            assert(next.last() == listing.paths@[i as int]@);
        }
        scan.pack_listed(listing.paths[i].as_str(), listing.chunks_prefix.as_str(), state);
        i = i + 1;
    }
    assert(paths.take(i as int) =~= paths);
    assert(scan.stats == first_pass_stats(*listing, marks));
    if !scan.packs_done() {
        return scan.unfinished();
    }
    let ghost whole = listing.checked(marks);
    let mut i: usize = 0;
    let mut all_referenced: bool = false;
    while i < listing.snapshots.len() && !all_referenced
        invariant
            i <= listing.snapshots@.len(),
            scan.wf(),
            scan.delta@ == (Delta { revived_packs: listing.listed(marks).revived, ..no_delta() }),
            scan.stats.snapshots_checked <= i,
            scan.stats == (GcStats {
                snapshots_checked: scan.stats.snapshots_checked,
                ..first_pass_stats(*listing, marks)
            }),
            whole == listing.checked(marks),
            all_referenced ==> whole == (Checked {
                left: scan.maybe_dead@,
                checked: scan.stats.snapshots_checked as nat,
                failed: false,
            }),
            !all_referenced ==> whole == ({
                let rest = checked(scan.maybe_dead@, listing.snapshots@, i as int);
                Checked { checked: rest.checked + scan.stats.snapshots_checked as nat, ..rest }
            }),
            failed_count(listing.manifests@) == 0,
            listing.listed(marks).unreferenced != Set::<PackRef>::empty(),
            marks == state.dead_packs@,
            *budget == *old(budget),
        decreases listing.snapshots@.len() - i,
    {
        let ghost before = scan.maybe_dead@;
        match scan.snapshot(&listing.snapshots[i]) {
            SnapshotCheck::Continue => {
                assert(listing.snapshots@[i as int] is Gone ==> scan.maybe_dead@ =~= before);
            },
            SnapshotCheck::AllReferenced => {
                all_referenced = true;
            },
            SnapshotCheck::Abort => {
                return scan.unfinished();
            },
        }
        i = i + 1;
    }
    let ghost dead = scan.maybe_dead@;
    let plan: PrefixPlan = scan.conclude(state, grace_period, budget, now);
    proof {
        let order = choose|order: Seq<PackRef>|
            {
                let d = #[trigger] decided(
                    order,
                    marks,
                    grace_period,
                    now,
                    *old(budget) as nat,
                );
                &&& order.no_duplicates()
                &&& order.to_set() == dead
                &&& d.eligible <= dead.len()
                &&& plan.deletes@ == d.deletes
                &&& *budget == *old(budget) - d.deletes.len()
                &&& plan.delta@ == (Delta {
                    newly_dead_packs: d.newly_dead,
                    revived_packs: listing.listed(marks).revived,
                    ..no_delta()
                })
                &&& plan.stats == (GcStats {
                    snapshots_checked: whole.checked as usize,
                    dead_found: dead.len() as usize,
                    eligible_for_deletion: d.eligible as usize,
                    ..first_pass_stats(*listing, marks)
                })
            };
        assert(is_decision(
            *listing,
            marks,
            grace_period,
            now,
            *old(budget),
            plan,
            *budget,
            order,
        ));
        assert forall|p: PackRef| #[trigger] plan.deletes@.contains(p) implies garbage(
            *listing,
            p,
        ) by {
            law_no_listed_pack_is_deleted(
                *listing,
                marks,
                grace_period,
                now,
                *old(budget),
                plan,
                *budget,
                p,
            );
        }
    }
    plan
}

/// Reconcile a single export: find the orphaned packs, and which of them to
/// delete.
pub fn reconcile_prefix(
    listing: &PrefixListing,
    state: &GcState,
    grace_period: Duration,
    budget: &mut usize,
) -> (plan: PrefixPlan)
    requires
        state.wf(),
    ensures
        exists|now: Instant|
            valid_instant(now) && #[trigger] is_plan(
                *listing,
                state.dead_packs@,
                grace_period,
                now,
                *old(budget),
                plan,
                *final(budget),
            ),
        forall|k: int, p: PackRef|
            0 <= k < listing.manifests@.len() && (
            #[trigger] listing.manifests@[k] matches Fetched::Packs(packs) && packs@.contains(p))
                ==> !(#[trigger] plan.deletes@.contains(p)),
        forall|k: int, p: PackRef|
            0 <= k < listing.snapshots@.len() && (
            #[trigger] listing.snapshots@[k] matches Fetched::Packs(packs) && packs@.contains(p))
                ==> !(#[trigger] plan.deletes@.contains(p)),
{
    let now: Instant = utc_now();
    reconcile_prefix_at(listing, state, grace_period, budget, now)
}

/// The keys of the packs that were deleted.
pub open spec fn deleted_keys(results: Seq<(PackRef, bool)>) -> Seq<Seq<char>>
    decreases results.len(),
{
    if results.len() == 0 {
        Seq::empty()
    } else {
        let before = deleted_keys(results.drop_last());
        let (p, deleted) = results.last();
        if deleted {
            before.push(pack_key_text(p.0, p.1))
        } else {
            before
        }
    }
}

impl PrefixPlan {
    /// The packs that a run deletes: none in a dry run.
    pub open spec fn spec_packs_to_delete(&self, dry_run: bool) -> Seq<PackRef> {
        if dry_run {
            Seq::empty()
        } else {
            self.deletes@
        }
    }

    /// The packs that a run deletes: none in a dry run.
    pub fn packs_to_delete(&self, dry_run: bool) -> (packs: Vec<PackRef>)
        ensures
            packs@ == self.spec_packs_to_delete(dry_run),
    {
        let mut packs: Vec<PackRef> = Vec::new();
        if !dry_run {
            let mut i: usize = 0;
            while i < self.deletes.len()
                invariant
                    i <= self.deletes@.len(),
                    packs@ == self.deletes@.take(i as int),
                decreases self.deletes@.len() - i,
            {
                packs.push(self.deletes[i]);
                i = i + 1;
                assert(packs@ =~= self.deletes@.take(i as int));
            }
            assert(packs@ =~= self.deletes@);
        }
        packs
    }

    /// Ends a reconciliation with what came of deleting each pack. A dry run
    /// deletes nothing, and counts what would have been deleted. A pack that could
    /// not be deleted stays marked.
    pub fn finish(self, dry_run: bool, results: &Vec<(PackRef, bool)>) -> (done: (
        GcStateDelta,
        GcStats,
    ))
        requires
            self.decided ==> self.stats.packs_deleted == 0 && self.stats.prefixes_scanned == 0
                && self.delta@.deleted_packs.len() == 0,
        ensures
            !self.decided ==> done.0 == self.delta && done.1 == self.stats,
            self.decided && dry_run ==> done.0@ == self.delta@ && done.1 == (GcStats {
                prefixes_scanned: 1,
                packs_deleted: self.deletes@.len() as usize,
                ..self.stats
            }),
            self.decided && !dry_run ==> done.0@ == (Delta {
                deleted_packs: deleted_keys(results@),
                ..self.delta@
            }) && done.1 == (GcStats {
                prefixes_scanned: 1,
                packs_deleted: deleted_keys(results@).len() as usize,
                ..self.stats
            }),
    {
        let mut delta: GcStateDelta = self.delta;
        let mut stats: GcStats = self.stats;
        if !self.decided {
            return (delta, stats);
        }
        if dry_run {
            stats.packs_deleted = self.deletes.len();
        } else {
            let mut i: usize = 0;
            proof {
                assert(results@.take(0) =~= Seq::empty());
                assert(delta@.deleted_packs =~= deleted_keys(results@.take(0)));
            }
            while i < results.len()
                invariant
                    i <= results@.len(),
                    deleted_keys(results@.take(i as int)).len() <= i,
                    delta@ == (Delta {
                        deleted_packs: deleted_keys(results@.take(i as int)),
                        ..self.delta@
                    }),
                    stats == (GcStats {
                        packs_deleted: deleted_keys(results@.take(i as int)).len() as usize,
                        ..self.stats
                    }),
                decreases results@.len() - i,
            {
                let (p, deleted) = results[i];
                proof {
                    let next = results@.take(i + 1);
                    assert(next.drop_last() =~= results@.take(i as int));
                    assert(next.last() == results@[i as int]);
                }
                if deleted {
                    let ghost before = delta.deleted_packs@;
                    delta.deleted_packs.push(pack_key(p.0, p.1));
                    proof {
                        assert(texts(delta.deleted_packs@) =~= texts(before).push(
                            pack_key_text(p.0, p.1),
                        ));
                    }
                    stats.packs_deleted = stats.packs_deleted + 1;
                }
                i = i + 1;
            }
            assert(results@.take(i as int) =~= results@);
        }
        stats.prefixes_scanned = 1;
        (delta, stats)
    }
}



proof fn lemma_decided(
    order: Seq<PackRef>,
    marks: Map<Seq<char>, Seq<char>>,
    grace_period: Duration,
    now: Instant,
    budget: nat,
)
    ensures
        ({
            let d = decided(order, marks, grace_period, now, budget);
            &&& d.eligible <= order.len()
            &&& d.deletes.len() == if d.eligible < budget {
                d.eligible
            } else {
                budget
            }
            &&& forall|p: PackRef| #[trigger]
                d.deletes.contains(p) ==> order.contains(p) && can_delete(
                    p,
                    marks,
                    grace_period,
                    now,
                )
            &&& d.eligible <= budget ==> forall|p: PackRef| #[trigger]
                order.contains(p) && can_delete(p, marks, grace_period, now)
                    ==> d.deletes.contains(p)
            &&& order.no_duplicates() ==> d.deletes.no_duplicates()
            &&& forall|p: PackRef| #[trigger]
                order.contains(p) && !marks.contains_key(pack_key_text(p.0, p.1))
                    ==> d.newly_dead.contains(
                    (pack_key_text(p.0, p.1), rfc3339_of(now.0, now.1)),
                )
        }),
    decreases order.len(),
{
    if order.len() > 0 {
        let rest = order.drop_last();
        let q = order.last();
        lemma_decided(rest, marks, grace_period, now, budget);
        let d = decided(order, marks, grace_period, now, budget);
        let before = decided(rest, marks, grace_period, now, budget);
        assert(order =~= rest.push(q));
        assert forall|p: PackRef| #[trigger] order.contains(p) == (rest.contains(p) || p == q) by {
            lemma_push_contains(rest, q, p);
        }
        assert forall|p: PackRef| #[trigger] d.deletes.contains(p) implies order.contains(p)
            && can_delete(p, marks, grace_period, now) by {
            lemma_push_contains(before.deletes, q, p);
        }
        if d.eligible <= budget {
            assert forall|p: PackRef| #[trigger] order.contains(p) && can_delete(
                p,
                marks,
                grace_period,
                now,
            ) implies d.deletes.contains(p) by {
                lemma_push_contains(before.deletes, q, p);
            }
        }
        if order.no_duplicates() {
            assert(rest.no_duplicates()) by {
                assert forall|i: int, j: int|
                    0 <= i < rest.len() && 0 <= j < rest.len() && i != j implies rest[i]
                    != rest[j] by {
                    assert(order[i] != order[j]);
                }
            }
            assert(!before.deletes.contains(q)) by {
                if before.deletes.contains(q) {
                    let i = choose|i: int| 0 <= i < rest.len() && rest[i] == q;
                    assert(order[i] != order[order.len() - 1]);
                }
            }
            assert(d.deletes.no_duplicates());
        }
        assert forall|p: PackRef| #[trigger] order.contains(p) && !marks.contains_key(
            pack_key_text(p.0, p.1),
        ) implies d.newly_dead.contains(
            (pack_key_text(p.0, p.1), rfc3339_of(now.0, now.1)),
        ) by {
            let mark = (pack_key_text(p.0, p.1), rfc3339_of(now.0, now.1));
            if rest.contains(p) {
                let i = choose|i: int|
                    0 <= i < before.newly_dead.len() && before.newly_dead[i] == mark;
                assert(d.newly_dead[i] == mark);
            } else {
                assert(d.newly_dead[d.newly_dead.len() - 1] == mark);
            }
        }
    }
}

proof fn lemma_push_contains(s: Seq<PackRef>, q: PackRef, p: PackRef)
    ensures
        s.push(q).contains(p) == (s.contains(p) || p == q),
{
    let t = s.push(q);
    assert(t[s.len() as int] == q);
    if s.contains(p) {
        let i = choose|i: int| 0 <= i < s.len() && s[i] == p;
        assert(t[i] == p);
    }
    if t.contains(p) {
        let i = choose|i: int| 0 <= i < t.len() && t[i] == p;
        if i < s.len() {
            assert(s[i] == p);
        }
    }
}

proof fn lemma_checked(maybe_dead: Set<PackRef>, snapshots: Seq<Fetched>, i: int)
    requires
        0 <= i,
    ensures
        ({
            let c = checked(maybe_dead, snapshots, i);
            &&& c.left.subset_of(maybe_dead)
            &&& !c.failed ==> forall|k: int, p: PackRef|
                i <= k < snapshots.len() && c.left.contains(p) ==> !(#[trigger] snapshots[k].packs()
                    .contains(p))
            &&& !c.failed ==> forall|p: PackRef| #[trigger]
                maybe_dead.contains(p) && !c.left.contains(p) ==> exists|k: int|
                    i <= k < snapshots.len() && #[trigger] snapshots[k].packs().contains(p)
            &&& forall|k: int|
                i <= k < snapshots.len() && #[trigger] snapshots[k] is Failed ==> c.failed || c.left
                    == Set::<PackRef>::empty()
        }),
    decreases snapshots.len() - i,
{
    if i < snapshots.len() {
        match snapshots[i] {
            Fetched::Packs(packs) => {
                let left = maybe_dead.difference(packs@.to_set());
                lemma_checked(left, snapshots, i + 1);
                assert forall|p: PackRef| #[trigger]
                    maybe_dead.contains(p) && !left.contains(p) implies snapshots[i].packs().contains(
                    p,
                ) by {}
            },
            Fetched::Gone => {
                lemma_checked(maybe_dead, snapshots, i + 1);
            },
            Fetched::Failed => {},
        }
    }
}

proof fn lemma_listed(
    paths: Seq<Seq<char>>,
    prefix: Seq<char>,
    live: Set<PackRef>,
    marks: Map<Seq<char>, Seq<char>>,
)
    ensures
        ({
            let l = listed(paths, prefix, live, marks);
            &&& forall|p: PackRef| #[trigger]
                l.unreferenced.contains(p) ==> !live.contains(p) && exists|i: int|
                    0 <= i < paths.len() && listed_pack(#[trigger] paths[i], prefix) == Some(p)
            &&& forall|i: int, p: PackRef|
                0 <= i < paths.len() && #[trigger] listed_pack(paths[i], prefix) == Some(p)
                    && !live.contains(p) ==> #[trigger] l.unreferenced.contains(p)
            &&& forall|i: int, p: PackRef|
                0 <= i < paths.len() && #[trigger] listed_pack(paths[i], prefix) == Some(p)
                    && live.contains(p) && marks.contains_key(pack_key_text(p.0, p.1))
                    ==> l.revived.contains(#[trigger] pack_key_text(p.0, p.1))
        }),
    decreases paths.len(),
{
    if paths.len() > 0 {
        let rest = paths.drop_last();
        lemma_listed(rest, prefix, live, marks);
        let l = listed(paths, prefix, live, marks);
        let before = listed(rest, prefix, live, marks);
        let n = paths.len() - 1;
        assert forall|p: PackRef| #[trigger] l.unreferenced.contains(p) implies !live.contains(p)
            && exists|i: int|
            0 <= i < paths.len() && listed_pack(#[trigger] paths[i], prefix) == Some(p) by {
            if before.unreferenced.contains(p) {
                let i = choose|i: int|
                    0 <= i < rest.len() && listed_pack(#[trigger] rest[i], prefix) == Some(p);
                assert(paths[i] == rest[i]);
            } else {
                assert(listed_pack(paths[n], prefix) == Some(p));
            }
        }
        assert forall|i: int, p: PackRef|
            0 <= i < paths.len() && #[trigger] listed_pack(paths[i], prefix) == Some(p)
                && !live.contains(p) implies #[trigger] l.unreferenced.contains(p) by {
            if i < n {
                assert(paths[i] == rest[i]);
                assert(before.unreferenced.contains(p));
            }
        }
        assert forall|i: int, p: PackRef|
            0 <= i < paths.len() && #[trigger] listed_pack(paths[i], prefix) == Some(p)
                && live.contains(p) && marks.contains_key(
                pack_key_text(p.0, p.1),
            ) implies l.revived.contains(#[trigger] pack_key_text(p.0, p.1)) by {
            let key = pack_key_text(p.0, p.1);
            if i < n {
                assert(paths[i] == rest[i]);
                assert(before.revived.contains(key));
                let j = choose|j: int| 0 <= j < before.revived.len() && before.revived[j] == key;
                assert(l.revived[j] == key);
            } else {
                assert(l.revived[l.revived.len() - 1] == key);
            }
        }
    }
}

/// Only dead packs are deleted: a pack that is deleted is listed, no manifest and
/// no snapshot refers to it, and it has been marked for the grace period or there
/// is none. No pack is deleted twice.
pub proof fn law_only_dead_packs_are_deleted(
    listing: PrefixListing,
    marks: Map<Seq<char>, Seq<char>>,
    grace_period: Duration,
    now: Instant,
    budget: usize,
    plan: PrefixPlan,
    left: usize,
)
    requires
        is_plan(listing, marks, grace_period, now, budget, plan, left),
    ensures
        plan.deletes@.no_duplicates(),
        forall|p: PackRef| #[trigger]
            plan.deletes@.contains(p) ==> {
                &&& exists|i: int|
                    0 <= i < listing.paths@.len() && listed_pack(
                        #[trigger] texts(listing.paths@)[i],
                        listing.chunks_prefix@,
                    ) == Some(p)
                &&& !listing.live().contains(p)
                &&& forall|k: int|
                    0 <= k < listing.snapshots@.len()
                        ==> !(#[trigger] listing.snapshots@[k].packs().contains(p))
                &&& can_delete(p, marks, grace_period, now)
            },
{
    if plan.deletes@.len() > 0 {
        let order = choose|order: Seq<PackRef>|
            is_decision(listing, marks, grace_period, now, budget, plan, left, order);
        lemma_decided(order, marks, grace_period, now, budget as nat);
        lemma_listed(texts(listing.paths@), listing.chunks_prefix@, listing.live(), marks);
        lemma_checked(listing.listed(marks).unreferenced, listing.snapshots@, 0);
        assert forall|p: PackRef| #[trigger] plan.deletes@.contains(p) implies {
            &&& exists|i: int|
                0 <= i < listing.paths@.len() && listed_pack(
                    #[trigger] texts(listing.paths@)[i],
                    listing.chunks_prefix@,
                ) == Some(p)
            &&& !listing.live().contains(p)
            &&& forall|k: int|
                0 <= k < listing.snapshots@.len()
                    ==> !(#[trigger] listing.snapshots@[k].packs().contains(p))
            &&& can_delete(p, marks, grace_period, now)
        } by {
            assert(order.to_set().contains(p));
            assert(listing.listed(marks).unreferenced.contains(p));
        }
    }
}

/// A manifest or a snapshot that cannot be read means that nothing is deleted, and
/// that the budget is left as it is. After a manifest that cannot be read, nothing
/// is marked or revived either.
pub proof fn law_errors_delete_nothing(
    listing: PrefixListing,
    marks: Map<Seq<char>, Seq<char>>,
    grace_period: Duration,
    now: Instant,
    budget: usize,
    plan: PrefixPlan,
    left: usize,
)
    requires
        is_plan(listing, marks, grace_period, now, budget, plan, left),
        failed_count(listing.manifests@) > 0 || exists|k: int|
            0 <= k < listing.snapshots@.len() && #[trigger] listing.snapshots@[k] is Failed,
    ensures
        plan.deletes@.len() == 0,
        left == budget,
        failed_count(listing.manifests@) > 0 ==> plan.delta@ == no_delta(),
{
    if failed_count(listing.manifests@) == 0 && plan.decided {
        let order = choose|order: Seq<PackRef>|
            is_decision(listing, marks, grace_period, now, budget, plan, left, order);
        lemma_checked(listing.listed(marks).unreferenced, listing.snapshots@, 0);
        if order.len() > 0 {
            assert(order.to_set().contains(order[0]));
        }
        lemma_decided(order, marks, grace_period, now, budget as nat);
    }
}

/// The budget is kept: as many packs are deleted as can be, up to the budget, and
/// what is left of it is what they have not used.
pub proof fn law_budget_caps_deletes(
    listing: PrefixListing,
    marks: Map<Seq<char>, Seq<char>>,
    grace_period: Duration,
    now: Instant,
    budget: usize,
    plan: PrefixPlan,
    left: usize,
)
    requires
        is_plan(listing, marks, grace_period, now, budget, plan, left),
        listing.checked(marks).left.len() <= usize::MAX,
    ensures
        plan.deletes@.len() + left == budget,
        plan.decided ==> plan.deletes@.len() == if plan.stats.eligible_for_deletion < budget {
            plan.stats.eligible_for_deletion
        } else {
            budget
        },
{
    if plan.decided {
        let order = choose|order: Seq<PackRef>|
            is_decision(listing, marks, grace_period, now, budget, plan, left, order);
        lemma_decided(order, marks, grace_period, now, budget as nat);
        order.unique_seq_to_set();
    }
}

/// With a grace period, a pack that is seen dead for the first time is marked and
/// not deleted.
pub proof fn law_first_sighting_is_not_deleted(
    listing: PrefixListing,
    marks: Map<Seq<char>, Seq<char>>,
    grace_period: Duration,
    now: Instant,
    budget: usize,
    plan: PrefixPlan,
    left: usize,
    p: PackRef,
)
    requires
        is_plan(listing, marks, grace_period, now, budget, plan, left),
        !grace_period.spec_is_zero(),
        !marks.contains_key(pack_key_text(p.0, p.1)),
    ensures
        !plan.deletes@.contains(p),
        plan.decided && listing.checked(marks).left.contains(p)
            ==> plan.delta@.newly_dead_packs.contains(
            (pack_key_text(p.0, p.1), rfc3339_of(now.0, now.1)),
        ),
{
    law_only_dead_packs_are_deleted(listing, marks, grace_period, now, budget, plan, left);
    if plan.decided {
        let order = choose|order: Seq<PackRef>|
            is_decision(listing, marks, grace_period, now, budget, plan, left, order);
        lemma_decided(order, marks, grace_period, now, budget as nat);
        if listing.checked(marks).left.contains(p) {
            assert(order.to_set().contains(p));
        }
    }
}

/// What can be deleted is deleted, where everything could be read and the budget
/// suffices: a listed pack that no manifest and no snapshot refers to.
pub proof fn law_dead_packs_are_deleted(
    listing: PrefixListing,
    marks: Map<Seq<char>, Seq<char>>,
    grace_period: Duration,
    now: Instant,
    budget: usize,
    plan: PrefixPlan,
    left: usize,
    i: int,
    p: PackRef,
)
    requires
        is_plan(listing, marks, grace_period, now, budget, plan, left),
        plan.decided,
        listing.checked(marks).left.len() <= budget,
        0 <= i < listing.paths@.len(),
        listed_pack(texts(listing.paths@)[i], listing.chunks_prefix@) == Some(p),
        !listing.live().contains(p),
        forall|k: int|
            0 <= k < listing.snapshots@.len()
                ==> !(#[trigger] listing.snapshots@[k].packs().contains(p)),
        can_delete(p, marks, grace_period, now),
    ensures
        plan.deletes@.contains(p),
{
    let order = choose|order: Seq<PackRef>|
        is_decision(listing, marks, grace_period, now, budget, plan, left, order);
    lemma_decided(order, marks, grace_period, now, budget as nat);
    lemma_listed(texts(listing.paths@), listing.chunks_prefix@, listing.live(), marks);
    lemma_checked(listing.listed(marks).unreferenced, listing.snapshots@, 0);
    order.unique_seq_to_set();
    assert(listing.listed(marks).unreferenced.contains(p));
    assert(order.to_set().contains(p));
}

/// A live pack that is marked as dead is revived, where the manifests could be
/// read.
pub proof fn law_live_packs_are_revived(
    listing: PrefixListing,
    marks: Map<Seq<char>, Seq<char>>,
    grace_period: Duration,
    now: Instant,
    budget: usize,
    plan: PrefixPlan,
    left: usize,
    i: int,
    p: PackRef,
)
    requires
        is_plan(listing, marks, grace_period, now, budget, plan, left),
        failed_count(listing.manifests@) == 0,
        0 <= i < listing.paths@.len(),
        listed_pack(texts(listing.paths@)[i], listing.chunks_prefix@) == Some(p),
        listing.live().contains(p),
        marks.contains_key(pack_key_text(p.0, p.1)),
    ensures
        plan.delta@.revived_packs.contains(pack_key_text(p.0, p.1)),
{
    lemma_listed(texts(listing.paths@), listing.chunks_prefix@, listing.live(), marks);
    if plan.decided {
        let order = choose|order: Seq<PackRef>|
            is_decision(listing, marks, grace_period, now, budget, plan, left, order);
        assert(is_decision(listing, marks, grace_period, now, budget, plan, left, order));
    }
}

/// The budget after `n` tries to claim a delete slot, in whatever order they come.
pub open spec fn after_claims(budget: nat, n: nat) -> nat
    decreases n,
{
    if n == 0 {
        budget
    } else {
        let before = after_claims(budget, (n - 1) as nat);
        if before > 0 {
            (before - 1) as nat
        } else {
            0
        }
    }
}

/// Of any number of tries to claim a delete slot, as many succeed as there are
/// slots, and no more.
pub proof fn law_slots_are_capped(budget: nat, n: nat)
    ensures
        budget - after_claims(budget, n) == if n < budget {
            n
        } else {
            budget
        },
    decreases n,
{
    if n > 0 {
        law_slots_are_capped(budget, (n - 1) as nat);
    }
}

proof fn lemma_referenced(fetched: Seq<Fetched>, p: PackRef)
    ensures
        referenced(fetched).contains(p) <==> exists|k: int|
            0 <= k < fetched.len() && (#[trigger] fetched[k] matches Fetched::Packs(packs)
                && packs@.contains(p)),
    decreases fetched.len(),
{
    if fetched.len() > 0 {
        let rest = fetched.drop_last();
        let n = fetched.len() - 1;
        lemma_referenced(rest, p);
        if referenced(rest).contains(p) {
            let k = choose|k: int|
                0 <= k < rest.len() && (#[trigger] rest[k] matches Fetched::Packs(packs)
                    && packs@.contains(p));
            assert(fetched[k] == rest[k]);
        }
        if referenced(fetched).contains(p) && !referenced(rest).contains(p) {
            assert(fetched[n] matches Fetched::Packs(packs) && packs@.contains(p));
        }
        if exists|k: int|
            0 <= k < fetched.len() && (#[trigger] fetched[k] matches Fetched::Packs(packs)
                && packs@.contains(p)) {
            let k = choose|k: int|
                0 <= k < fetched.len() && (#[trigger] fetched[k] matches Fetched::Packs(packs)
                    && packs@.contains(p));
            if k < n {
                assert(rest[k] == fetched[k]);
            }
        }
    }
}

/// A pack is live exactly if one of the manifests, wherever it stands among them,
/// was read and lists it.
pub proof fn law_live_packs_are_those_in_manifests(listing: PrefixListing)
    ensures
        forall|p: PackRef| #[trigger]
            listing.live().contains(p) <==> exists|k: int|
                0 <= k < listing.manifests@.len() && (
                #[trigger] listing.manifests@[k] matches Fetched::Packs(packs) && packs@.contains(
                    p,
                )),
{
    assert forall|p: PackRef| #[trigger] listing.live().contains(p) <==> exists|k: int|
        0 <= k < listing.manifests@.len() && (
        #[trigger] listing.manifests@[k] matches Fetched::Packs(packs) && packs@.contains(p)) by {
        lemma_referenced(listing.manifests@, p);
    }
}

/// Each manifest counts as read, as gone or as one that could not be read: the
/// counts are those of the manifests of the kind.
pub proof fn law_manifests_are_counted(fetched: Seq<Fetched>)
    ensures
        read_count(fetched) == fetched.filter(|f: Fetched| f is Packs).len(),
        failed_count(fetched) == fetched.filter(|f: Fetched| f is Failed).len(),
        failed_count(fetched) > 0 <==> exists|k: int|
            0 <= k < fetched.len() && #[trigger] fetched[k] is Failed,
        read_count(fetched) + failed_count(fetched) <= fetched.len(),
        (forall|k: int| 0 <= k < fetched.len() ==> !(#[trigger] fetched[k] is Gone))
            ==> read_count(fetched) + failed_count(fetched) == fetched.len(),
    decreases fetched.len(),
{
    reveal(Seq::filter);
    if fetched.len() > 0 {
        let rest = fetched.drop_last();
        let n = fetched.len() - 1;
        law_manifests_are_counted(rest);
        assert forall|k: int| 0 <= k < n implies #[trigger] rest[k] == fetched[k] by {}
        if failed_count(rest) > 0 {
            let k = choose|k: int| 0 <= k < rest.len() && #[trigger] rest[k] is Failed;
            assert(fetched[k] is Failed);
        }
        if fetched.last() is Failed {
            assert(fetched[n] is Failed);
        }
        if exists|k: int| 0 <= k < fetched.len() && #[trigger] fetched[k] is Failed {
            let k = choose|k: int| 0 <= k < fetched.len() && #[trigger] fetched[k] is Failed;
            if k < n {
                assert(rest[k] is Failed);
            }
        }
        assert(!(fetched[n] is Gone) || fetched.last() is Gone);
    }
}

/// No pack is deleted that a manifest or a snapshot lists: not by the first of them
/// and not by any other. What is deleted stands in the listing, and either it was
/// marked dead at a time from which at least the grace period has passed, or it is
/// unmarked and there is no grace period.
pub proof fn law_no_listed_pack_is_deleted(
    listing: PrefixListing,
    marks: Map<Seq<char>, Seq<char>>,
    grace_period: Duration,
    now: Instant,
    budget: usize,
    plan: PrefixPlan,
    left: usize,
    p: PackRef,
)
    requires
        is_plan(listing, marks, grace_period, now, budget, plan, left),
        plan.deletes@.contains(p),
    ensures
        forall|k: int|
            0 <= k < listing.manifests@.len() ==> match #[trigger] listing.manifests@[k] {
                Fetched::Packs(packs) => !packs@.contains(p),
                Fetched::Gone => true,
                Fetched::Failed => false,
            },
        forall|k: int|
            0 <= k < listing.snapshots@.len() ==> match #[trigger] listing.snapshots@[k] {
                Fetched::Packs(packs) => !packs@.contains(p),
                Fetched::Gone => true,
                Fetched::Failed => false,
            },
        exists|i: int|
            0 <= i < listing.paths@.len() && listing.chunks_prefix@.is_prefix_of(
                #[trigger] listing.paths@[i]@,
            ) && pack_at(listing.paths@[i]@.skip(listing.chunks_prefix@.len() as int)) == Some(p),
        marks.contains_key(pack_key_text(p.0, p.1)) ==> {
            &&& instant_of(marks[pack_key_text(p.0, p.1)]) matches Some(then)
            &&& grace_period.secs * 1_000_000_000 + grace_period.nanos <= nanos_between(now, then)
                || (grace_period.secs == 0 && grace_period.nanos == 0)
        },
        !marks.contains_key(pack_key_text(p.0, p.1)) ==> grace_period.secs == 0
            && grace_period.nanos == 0,
{
    law_only_dead_packs_are_deleted(listing, marks, grace_period, now, budget, plan, left);
    law_live_packs_are_those_in_manifests(listing);
    law_manifests_are_counted(listing.manifests@);
    assert forall|k: int| 0 <= k < listing.snapshots@.len() implies match
        #[trigger] listing.snapshots@[k] {
        Fetched::Packs(packs) => !packs@.contains(p),
        Fetched::Gone => true,
        Fetched::Failed => false,
    } by {
        assert(!listing.snapshots@[k].packs().contains(p));
        if listing.snapshots@[k] is Failed {
            law_errors_delete_nothing(listing, marks, grace_period, now, budget, plan, left);
        }
    }
    let i = choose|i: int|
        0 <= i < listing.paths@.len() && listed_pack(
            #[trigger] texts(listing.paths@)[i],
            listing.chunks_prefix@,
        ) == Some(p);
    assert(texts(listing.paths@)[i] == listing.paths@[i]@);
}

proof fn lemma_listed_more(
    paths: Seq<Seq<char>>,
    prefix: Seq<char>,
    live: Set<PackRef>,
    marks: Map<Seq<char>, Seq<char>>,
)
    ensures
        ({
            let l = listed(paths, prefix, live, marks);
            &&& l.unreferenced.finite()
            &&& l.unreferenced.len() <= paths.len()
            &&& l.known == paths.filter(|path: Seq<char>| listed_pack(path, prefix) is Some).len()
            &&& forall|key: Seq<char>| #[trigger]
                l.revived.contains(key) ==> exists|i: int|
                    0 <= i < paths.len() && (listed_pack(#[trigger] paths[i], prefix) matches Some(p)
                        && live.contains(p) && key == pack_key_text(p.0, p.1)
                        && marks.contains_key(key))
        }),
    decreases paths.len(),
{
    reveal(Seq::filter);
    if paths.len() > 0 {
        let rest = paths.drop_last();
        lemma_listed_more(rest, prefix, live, marks);
        let l = listed(paths, prefix, live, marks);
        let before = listed(rest, prefix, live, marks);
        let n = paths.len() - 1;
        assert forall|key: Seq<char>| #[trigger] l.revived.contains(key) implies exists|i: int|
            0 <= i < paths.len() && (listed_pack(#[trigger] paths[i], prefix) matches Some(p)
                && live.contains(p) && key == pack_key_text(p.0, p.1) && marks.contains_key(
                key,
            )) by {
            let j = choose|j: int| 0 <= j < l.revived.len() && l.revived[j] == key;
            if j < before.revived.len() {
                assert(before.revived[j] == key);
                assert(before.revived.contains(key));
                let i = choose|i: int|
                    0 <= i < rest.len() && (listed_pack(#[trigger] rest[i], prefix) matches Some(p)
                        && live.contains(p) && key == pack_key_text(p.0, p.1)
                        && marks.contains_key(key));
                assert(paths[i] == rest[i]);
            } else {
                assert(listed_pack(paths[n], prefix) is Some);
            }
        }
    }
}

proof fn lemma_decided_marks(
    order: Seq<PackRef>,
    marks: Map<Seq<char>, Seq<char>>,
    grace_period: Duration,
    now: Instant,
    budget: nat,
)
    ensures
        ({
            let d = decided(order, marks, grace_period, now, budget);
            &&& d.eligible == order.filter(
                |p: PackRef| can_delete(p, marks, grace_period, now),
            ).len()
            &&& forall|m: (Seq<char>, Seq<char>)| #[trigger]
                d.newly_dead.contains(m) ==> m.1 == rfc3339_of(now.0, now.1)
                    && !marks.contains_key(m.0) && exists|i: int|
                    0 <= i < order.len() && m.0 == pack_key_text(
                        (#[trigger] order[i]).0,
                        order[i].1,
                    )
        }),
    decreases order.len(),
{
    reveal(Seq::filter);
    if order.len() > 0 {
        let rest = order.drop_last();
        let n = order.len() - 1;
        lemma_decided_marks(rest, marks, grace_period, now, budget);
        let d = decided(order, marks, grace_period, now, budget);
        let before = decided(rest, marks, grace_period, now, budget);
        assert forall|m: (Seq<char>, Seq<char>)| #[trigger] d.newly_dead.contains(m) implies m.1
            == rfc3339_of(now.0, now.1) && !marks.contains_key(m.0) && exists|i: int|
            0 <= i < order.len() && m.0 == pack_key_text((#[trigger] order[i]).0, order[i].1) by {
            let j = choose|j: int| 0 <= j < d.newly_dead.len() && d.newly_dead[j] == m;
            if j < before.newly_dead.len() {
                assert(before.newly_dead[j] == m);
                assert(before.newly_dead.contains(m));
                let i = choose|i: int|
                    0 <= i < rest.len() && m.0 == pack_key_text((#[trigger] rest[i]).0, rest[i].1);
                assert(order[i] == rest[i]);
            } else {
                assert(order[n] == order.last());
            }
        }
    }
}

/// Whether a pack is garbage: it stands in the listing, everything that could list
/// it could be read or is gone, and nothing of that lists it.
pub open spec fn garbage(listing: PrefixListing, p: PackRef) -> bool {
    &&& exists|i: int|
        0 <= i < listing.paths@.len() && listing.chunks_prefix@.is_prefix_of(
            #[trigger] listing.paths@[i]@,
        ) && pack_at(listing.paths@[i]@.skip(listing.chunks_prefix@.len() as int)) == Some(p)
    &&& forall|k: int|
        0 <= k < listing.manifests@.len() ==> match #[trigger] listing.manifests@[k] {
            Fetched::Packs(packs) => !packs@.contains(p),
            Fetched::Gone => true,
            Fetched::Failed => false,
        }
    &&& forall|k: int|
        0 <= k < listing.snapshots@.len() ==> match #[trigger] listing.snapshots@[k] {
            Fetched::Packs(packs) => !packs@.contains(p),
            Fetched::Gone => true,
            Fetched::Failed => false,
        }
}

proof fn lemma_garbage(
    listing: PrefixListing,
    marks: Map<Seq<char>, Seq<char>>,
    grace_period: Duration,
    now: Instant,
    budget: usize,
    plan: PrefixPlan,
    left: usize,
    p: PackRef,
)
    requires
        is_plan(listing, marks, grace_period, now, budget, plan, left),
    ensures
        garbage(listing, p) ==> plan.decided && listing.checked(marks).left.contains(p),
        plan.decided && listing.checked(marks).left.contains(p) ==> garbage(listing, p),
{
    law_live_packs_are_those_in_manifests(listing);
    law_manifests_are_counted(listing.manifests@);
    lemma_listed(texts(listing.paths@), listing.chunks_prefix@, listing.live(), marks);
    lemma_checked(listing.listed(marks).unreferenced, listing.snapshots@, 0);
    lemma_failed_snapshot(listing.listed(marks).unreferenced, listing.snapshots@, 0);
    if garbage(listing, p) {
        let i = choose|i: int|
            0 <= i < listing.paths@.len() && listing.chunks_prefix@.is_prefix_of(
                #[trigger] listing.paths@[i]@,
            ) && pack_at(listing.paths@[i]@.skip(listing.chunks_prefix@.len() as int)) == Some(p);
        assert(listed_pack(texts(listing.paths@)[i], listing.chunks_prefix@) == Some(p));
        assert(listing.listed(marks).unreferenced.contains(p));
        assert forall|k: int| 0 <= k < listing.snapshots@.len() implies !(
        #[trigger] listing.snapshots@[k].packs().contains(p)) by {
            assert(!(listing.snapshots@[k] is Failed));
        }
    }
    if plan.decided && listing.checked(marks).left.contains(p) {
        assert(listing.listed(marks).unreferenced.contains(p));
        let i = choose|i: int|
            0 <= i < listing.paths@.len() && listed_pack(
                #[trigger] texts(listing.paths@)[i],
                listing.chunks_prefix@,
            ) == Some(p);
        assert(texts(listing.paths@)[i] == listing.paths@[i]@);
        assert forall|k: int| 0 <= k < listing.snapshots@.len() implies match
            #[trigger] listing.snapshots@[k] {
            Fetched::Packs(packs) => !packs@.contains(p),
            Fetched::Gone => true,
            Fetched::Failed => false,
        } by {
            assert(!listing.snapshots@[k].packs().contains(p));
        }
    }
}

proof fn lemma_failed_snapshot(maybe_dead: Set<PackRef>, snapshots: Seq<Fetched>, i: int)
    requires
        0 <= i,
    ensures
        checked(maybe_dead, snapshots, i).failed ==> exists|k: int|
            i <= k < snapshots.len() && #[trigger] snapshots[k] is Failed,
        checked(maybe_dead, snapshots, i).checked <= snapshots.len(),
        i <= snapshots.len() ==> checked(maybe_dead, snapshots, i).checked <= snapshots.len() - i,
    decreases snapshots.len() - i,
{
    if i < snapshots.len() {
        match snapshots[i] {
            Fetched::Packs(packs) => {
                lemma_failed_snapshot(maybe_dead.difference(packs@.to_set()), snapshots, i + 1);
            },
            Fetched::Gone => {
                lemma_failed_snapshot(maybe_dead, snapshots, i + 1);
            },
            Fetched::Failed => {},
        }
    }
}

/// All garbage is found, and nothing else: a pack is marked now exactly if it is
/// garbage and has no mark yet, and it is deleted, where the budget has room for
/// every path, exactly if it is garbage and its time has come. The mark bears the
/// present time.
pub proof fn law_all_garbage_is_collected(
    listing: PrefixListing,
    marks: Map<Seq<char>, Seq<char>>,
    grace_period: Duration,
    now: Instant,
    budget: usize,
    plan: PrefixPlan,
    left: usize,
    p: PackRef,
)
    requires
        is_plan(listing, marks, grace_period, now, budget, plan, left),
    ensures
        garbage(listing, p) && !marks.contains_key(pack_key_text(p.0, p.1))
            ==> plan.delta@.newly_dead_packs.contains(
            (pack_key_text(p.0, p.1), rfc3339_of(now.0, now.1)),
        ),
        forall|i: int|
            0 <= i < plan.delta@.newly_dead_packs.len() ==> {
                let m = #[trigger] plan.delta@.newly_dead_packs[i];
                &&& m.1 == rfc3339_of(now.0, now.1)
                &&& !marks.contains_key(m.0)
                &&& exists|q: PackRef|
                    #[trigger] garbage(listing, q) && m.0 == pack_key_text(q.0, q.1)
            },
        plan.deletes@.contains(p) ==> garbage(listing, p),
        listing.paths@.len() <= budget && garbage(listing, p) && marks.contains_key(
            pack_key_text(p.0, p.1),
        ) ==> plan.deletes@.contains(p) == (
        instant_of(marks[pack_key_text(p.0, p.1)]) matches Some(then) && (grace_period.secs
            * 1_000_000_000 + grace_period.nanos <= nanos_between(now, then) || (grace_period.secs
            == 0 && grace_period.nanos == 0))),
        listing.paths@.len() <= budget && garbage(listing, p) && !marks.contains_key(
            pack_key_text(p.0, p.1),
        ) ==> plan.deletes@.contains(p) == (grace_period.secs == 0 && grace_period.nanos == 0),
{
    lemma_garbage(listing, marks, grace_period, now, budget, plan, left, p);
    law_only_dead_packs_are_deleted(listing, marks, grace_period, now, budget, plan, left);
    if plan.decided {
        let order = choose|order: Seq<PackRef>|
            is_decision(listing, marks, grace_period, now, budget, plan, left, order);
        lemma_decided(order, marks, grace_period, now, budget as nat);
        lemma_decided_marks(order, marks, grace_period, now, budget as nat);
        let paths = texts(listing.paths@);
        lemma_listed_more(paths, listing.chunks_prefix@, listing.live(), marks);
        lemma_checked(listing.listed(marks).unreferenced, listing.snapshots@, 0);
        order.unique_seq_to_set();
        vstd::set_lib::lemma_len_subset(
            listing.checked(marks).left,
            listing.listed(marks).unreferenced,
        );
        if listing.checked(marks).left.contains(p) {
            assert(order.to_set().contains(p));
            assert(order.contains(p));
        }
        if plan.deletes@.contains(p) {
            assert(order.contains(p));
            assert(order.to_set().contains(p));
        }
        assert forall|i: int| 0 <= i < plan.delta@.newly_dead_packs.len() implies {
            let m = #[trigger] plan.delta@.newly_dead_packs[i];
            &&& m.1 == rfc3339_of(now.0, now.1)
            &&& !marks.contains_key(m.0)
            &&& exists|q: PackRef|
                #[trigger] garbage(listing, q) && m.0 == pack_key_text(q.0, q.1)
        } by {
            let d = decided(order, marks, grace_period, now, budget as nat);
            let m = d.newly_dead[i];
            assert(d.newly_dead.contains(m));
            let j = choose|j: int|
                0 <= j < order.len() && m.0 == pack_key_text((#[trigger] order[j]).0, order[j].1);
            assert(order.to_set().contains(order[j]));
            lemma_garbage(listing, marks, grace_period, now, budget, plan, left, order[j]);
            assert(garbage(listing, order[j]));
        }
    }
}

/// Where every manifest could be read, a listed pack loses its mark exactly if a
/// manifest lists it. A plan names no pack as deleted and no layer.
pub proof fn law_marks_are_lost_to_manifests(
    listing: PrefixListing,
    marks: Map<Seq<char>, Seq<char>>,
    grace_period: Duration,
    now: Instant,
    budget: usize,
    plan: PrefixPlan,
    left: usize,
)
    requires
        is_plan(listing, marks, grace_period, now, budget, plan, left),
    ensures
        forall|i: int, k: int, p: PackRef|
            #![trigger listing.paths@[i], listing.manifests@[k], pack_key_text(p.0, p.1)]
            0 <= i < listing.paths@.len() && 0 <= k < listing.manifests@.len() && (forall|m: int|
                0 <= m < listing.manifests@.len() ==> !(#[trigger] listing.manifests@[m] is Failed))
                && listing.chunks_prefix@.is_prefix_of(listing.paths@[i]@) && pack_at(
                listing.paths@[i]@.skip(listing.chunks_prefix@.len() as int),
            ) == Some(p) && (listing.manifests@[k] matches Fetched::Packs(packs)
                && packs@.contains(p)) && marks.contains_key(pack_key_text(p.0, p.1))
                ==> plan.delta@.revived_packs.contains(pack_key_text(p.0, p.1)),
        forall|key: Seq<char>| #[trigger]
            plan.delta@.revived_packs.contains(key) ==> marks.contains_key(key) && exists|
                k: int,
                p: PackRef,
            |
                0 <= k < listing.manifests@.len() && (
                #[trigger] listing.manifests@[k] matches Fetched::Packs(packs) && packs@.contains(
                    p,
                )) && key == #[trigger] pack_key_text(p.0, p.1),
        plan.delta@.deleted_packs.len() == 0,
        plan.delta@.newly_dead_layers.len() == 0,
        plan.delta@.revived_layers.len() == 0,
        plan.delta@.deleted_layers.len() == 0,
{
    law_manifests_are_counted(listing.manifests@);
    law_live_packs_are_those_in_manifests(listing);
    let paths = texts(listing.paths@);
    lemma_listed(paths, listing.chunks_prefix@, listing.live(), marks);
    lemma_listed_more(paths, listing.chunks_prefix@, listing.live(), marks);
    let revived = listing.listed(marks).revived;
    if plan.decided {
        let order = choose|order: Seq<PackRef>|
            is_decision(listing, marks, grace_period, now, budget, plan, left, order);
        assert(is_decision(listing, marks, grace_period, now, budget, plan, left, order));
    }
    assert forall|i: int, k: int, p: PackRef|
        #![trigger listing.paths@[i], listing.manifests@[k], pack_key_text(p.0, p.1)]
        0 <= i < listing.paths@.len() && 0 <= k < listing.manifests@.len() && (forall|m: int|
            0 <= m < listing.manifests@.len() ==> !(#[trigger] listing.manifests@[m] is Failed))
            && listing.chunks_prefix@.is_prefix_of(listing.paths@[i]@) && pack_at(
            listing.paths@[i]@.skip(listing.chunks_prefix@.len() as int),
        ) == Some(p) && (listing.manifests@[k] matches Fetched::Packs(packs) && packs@.contains(p))
            && marks.contains_key(
            pack_key_text(p.0, p.1),
        ) implies plan.delta@.revived_packs.contains(pack_key_text(p.0, p.1)) by {
        assert(listing.live().contains(p));
        assert(listed_pack(paths[i], listing.chunks_prefix@) == Some(p));
        assert(revived.contains(pack_key_text(p.0, p.1)));
    }
    assert forall|key: Seq<char>| #[trigger]
        plan.delta@.revived_packs.contains(key) implies marks.contains_key(key) && exists|
        k: int,
        p: PackRef,
    |
        0 <= k < listing.manifests@.len() && (
        #[trigger] listing.manifests@[k] matches Fetched::Packs(packs) && packs@.contains(p))
            && key == #[trigger] pack_key_text(p.0, p.1) by {
        assert(revived.contains(key));
        let i = choose|i: int|
            0 <= i < paths.len() && (listed_pack(#[trigger] paths[i], listing.chunks_prefix@) matches
                Some(p) && listing.live().contains(p) && key == pack_key_text(p.0, p.1)
                && marks.contains_key(key));
        let p = listed_pack(paths[i], listing.chunks_prefix@)->Some_0;
        assert(listing.live().contains(p));
        let k = choose|k: int|
            0 <= k < listing.manifests@.len() && (
            #[trigger] listing.manifests@[k] matches Fetched::Packs(packs) && packs@.contains(p));
        assert(key == pack_key_text(p.0, p.1));
        assert(listing.manifests@[k] is Packs);
    }
}

/// The counters of a plan: the manifests that were read and those that could not
/// be, the paths that name a pack, and the garbage. Where a manifest could not be
/// read, nothing else is counted.
pub proof fn law_plan_counts(
    listing: PrefixListing,
    marks: Map<Seq<char>, Seq<char>>,
    grace_period: Duration,
    now: Instant,
    budget: usize,
    plan: PrefixPlan,
    left: usize,
)
    requires
        is_plan(listing, marks, grace_period, now, budget, plan, left),
    ensures
        plan.stats.manifests_scanned == listing.manifests@.filter(|f: Fetched| f is Packs).len(),
        plan.stats.manifest_errors == listing.manifests@.filter(|f: Fetched| f is Failed).len(),
        plan.stats.manifest_errors == 0 ==> plan.stats.known_packs == texts(
            listing.paths@,
        ).filter(
            |path: Seq<char>|
                listing.chunks_prefix@.is_prefix_of(path) && pack_at(
                    path.skip(listing.chunks_prefix@.len() as int),
                ) is Some,
        ).len(),
        plan.stats.manifest_errors > 0 ==> plan.stats.known_packs == 0 && plan.stats.dead_found == 0
            && plan.stats.live_packs == 0 && plan.stats.prefixes_scanned == 0,
        plan.stats.packs_deleted == 0,
        plan.stats.live_layers == 0,
        plan.stats.dead_layers_found == 0,
        plan.stats.eligible_layers == 0,
        plan.stats.layers_deleted == 0,
        plan.stats.dead_found == Set::new(|p: PackRef| plan.decided && garbage(listing, p)).len(),
        plan.stats.snapshots_checked <= listing.snapshots@.len(),
        plan.deletes@.len() <= plan.stats.eligible_for_deletion <= plan.stats.dead_found,
{
    let paths = texts(listing.paths@);
    law_manifests_are_counted(listing.manifests@);
    lemma_listed_more(paths, listing.chunks_prefix@, listing.live(), marks);
    lemma_failed_snapshot(listing.listed(marks).unreferenced, listing.snapshots@, 0);
    lemma_checked(listing.listed(marks).unreferenced, listing.snapshots@, 0);
    let named = |path: Seq<char>| listed_pack(path, listing.chunks_prefix@) is Some;
    let raw = |path: Seq<char>|
        listing.chunks_prefix@.is_prefix_of(path) && pack_at(
            path.skip(listing.chunks_prefix@.len() as int),
        ) is Some;
    lemma_same_filter(paths, named, raw);
    paths.lemma_filter_len(named);
    let g = Set::new(|p: PackRef| plan.decided && garbage(listing, p));
    assert(listing.manifests.len() <= usize::MAX);
    assert(listing.paths.len() <= usize::MAX);
    assert(listing.snapshots.len() <= usize::MAX);
    if plan.decided {
        let order = choose|order: Seq<PackRef>|
            is_decision(listing, marks, grace_period, now, budget, plan, left, order);
        lemma_decided(order, marks, grace_period, now, budget as nat);
        order.unique_seq_to_set();
        vstd::set_lib::lemma_len_subset(
            listing.checked(marks).left,
            listing.listed(marks).unreferenced,
        );
        assert forall|p: PackRef| g.contains(p) == listing.checked(marks).left.contains(p) by {
            lemma_garbage(listing, marks, grace_period, now, budget, plan, left, p);
        }
        assert(g =~= listing.checked(marks).left);
    } else {
        assert(g =~= Set::empty());
    }
}

pub(crate) proof fn lemma_same_filter<A>(s: Seq<A>, f: spec_fn(A) -> bool, g: spec_fn(A) -> bool)
    requires
        forall|a: A| #[trigger] f(a) == g(a),
    ensures
        s.filter(f) == s.filter(g),
    decreases s.len(),
{
    reveal(Seq::filter);
    if s.len() > 0 {
        lemma_same_filter(s.drop_last(), f, g);
    }
}

/// A pack leaves the marks after a run exactly if its deletion succeeded: each
/// success gives one key, and a failure gives none.
pub proof fn law_successes_are_recorded(results: Seq<(PackRef, bool)>)
    ensures
        deleted_keys(results).len() == results.filter(|r: (PackRef, bool)| r.1).len(),
        forall|i: int|
            0 <= i < results.len() && (#[trigger] results[i]).1 ==> deleted_keys(results).contains(
                pack_key_text(results[i].0.0, results[i].0.1),
            ),
        forall|key: Seq<char>| #[trigger]
            deleted_keys(results).contains(key) ==> exists|i: int|
                0 <= i < results.len() && (#[trigger] results[i]).1 && key == pack_key_text(
                    results[i].0.0,
                    results[i].0.1,
                ),
    decreases results.len(),
{
    reveal(Seq::filter);
    if results.len() > 0 {
        let rest = results.drop_last();
        let n = results.len() - 1;
        law_successes_are_recorded(rest);
        let all = deleted_keys(results);
        let before = deleted_keys(rest);
        assert forall|i: int|
            0 <= i < results.len() && (#[trigger] results[i]).1 implies all.contains(
            pack_key_text(results[i].0.0, results[i].0.1),
        ) by {
            let key = pack_key_text(results[i].0.0, results[i].0.1);
            if i < n {
                assert(rest[i] == results[i]);
                let j = choose|j: int| 0 <= j < before.len() && before[j] == key;
                assert(all[j] == key);
            } else {
                assert(all[before.len() as int] == key);
            }
        }
        assert forall|key: Seq<char>| #[trigger] all.contains(key) implies exists|i: int|
            0 <= i < results.len() && (#[trigger] results[i]).1 && key == pack_key_text(
                results[i].0.0,
                results[i].0.1,
            ) by {
            let j = choose|j: int| 0 <= j < all.len() && all[j] == key;
            if j < before.len() {
                assert(before[j] == key);
                assert(before.contains(key));
                let i = choose|i: int|
                    0 <= i < rest.len() && (#[trigger] rest[i]).1 && key == pack_key_text(
                        rest[i].0.0,
                        rest[i].0.1,
                    );
                assert(results[i] == rest[i]);
            } else {
                assert(results[n].1);
            }
        }
    }
}

/// There are no more dead packs than paths.
pub(crate) proof fn lemma_dead_fit(listing: PrefixListing, marks: Map<Seq<char>, Seq<char>>)
    ensures
        listing.checked(marks).left.finite(),
        listing.checked(marks).left.len() <= listing.paths@.len() <= usize::MAX,
{
    lemma_listed_more(texts(listing.paths@), listing.chunks_prefix@, listing.live(), marks);
    lemma_checked(listing.listed(marks).unreferenced, listing.snapshots@, 0);
    vstd::set_lib::lemma_len_subset(
        listing.checked(marks).left,
        listing.listed(marks).unreferenced,
    );
    assert(listing.paths.len() <= usize::MAX);
}

/// What a step of a scan takes in. The packs that a manifest lists are live from then on, and
/// no other becomes live; those that a snapshot lists are no longer thought dead, and all
/// others still are. A manifest that could not be read is remembered; a snapshot that could not
/// ends the scan.
pub proof fn law_scan_takes_in(
    first: &mut PrefixScan,
    manifest: Fetched,
    second: &mut PrefixScan,
    snapshot: Fetched,
    next: SnapshotCheck,
    p: PackRef,
)
    requires
        call_ensures(PrefixScan::manifest, (first, &manifest), ()),
        call_ensures(PrefixScan::snapshot, (second, &snapshot), next),
    ensures
        ({
            let before = mut_ref_current(first);
            let after = mut_ref_future(first);
            let listed = manifest is Packs && manifest->Packs_0@.contains(p);
            &&& after.live@.contains(p) <==> before.live@.contains(p) || listed
            &&& after.manifest_failed == (before.manifest_failed || manifest is Failed)
            &&& after.maybe_dead@ == before.maybe_dead@
            &&& after.delta@ == before.delta@
        }),
        ({
            let before = mut_ref_current(second);
            let after = mut_ref_future(second);
            let listed = snapshot is Packs && snapshot->Packs_0@.contains(p);
            &&& after.maybe_dead@.contains(p) <==> before.maybe_dead@.contains(p) && !listed
            &&& after.live@ == before.live@
            &&& after.delta@ == before.delta@
            &&& next is Abort <==> snapshot is Failed
            &&& next is AllReferenced ==> !after.maybe_dead@.contains(p)
            &&& next is Continue && snapshot is Packs ==> after.maybe_dead@
                != Set::<PackRef>::empty()
        }),
{
}

/// What becomes of a listed path. If it names a pack, the pack is thought dead unless it is
/// live; a live one that is marked dead loses the mark. Nothing else changes, and a path that
/// names no pack changes nothing.
pub proof fn law_path_is_taken_in(
    scan: &mut PrefixScan,
    path: &str,
    prefix: &str,
    state: GcState,
    rel: Seq<char>,
    p: PackRef,
)
    requires
        call_ensures(PrefixScan::pack_listed, (scan, path, prefix, &state), ()),
        path@ == prefix@ + rel,
    ensures
        ({
            let before = mut_ref_current(scan);
            let after = mut_ref_future(scan);
            let key = pack_key_text(p.0, p.1);
            &&& after.live@ == before.live@
            &&& pack_at(rel) == Some(p) && !before.live@.contains(p) ==> after.maybe_dead@
                == before.maybe_dead@.insert(p) && after.delta@ == before.delta@
            &&& pack_at(rel) == Some(p) && before.live@.contains(p) ==> after.maybe_dead@
                == before.maybe_dead@
            &&& pack_at(rel) == Some(p) && before.live@.contains(p)
                && state.dead_packs@.contains_key(key) ==> after.delta@.revived_packs
                == before.delta@.revived_packs.push(key)
            &&& pack_at(rel) == Some(p) && !state.dead_packs@.contains_key(key) ==> after.delta@
                == before.delta@
            &&& pack_at(rel) is None ==> after.maybe_dead@ == before.maybe_dead@ && after.delta@
                == before.delta@ && after.stats == before.stats
        }),
{
    let whole = prefix@ + rel;
    assert(whole.subrange(0, prefix@.len() as int) =~= prefix@);
    assert(whole.skip(prefix@.len() as int) =~= rel);
}

/// What is decided about dead packs: only dead ones are deleted, each once and as far as the
/// budget goes; one that is marked only if the mark is as old as the grace period, one that is
/// not marked only without a grace period. Each that is not marked is marked, with the present
/// time.
pub proof fn law_decision(
    scan: &mut PrefixScan,
    state: GcState,
    grace_period: Duration,
    budget: &mut usize,
    now: Instant,
    deletes: Vec<PackRef>,
    p: PackRef,
)
    requires
        call_ensures(
            PrefixScan::decide,
            (scan, &state, grace_period, budget, now),
            deletes,
        ),
    ensures
        ({
            let dead = mut_ref_current(scan).maybe_dead@;
            let marks = state.dead_packs@;
            let key = pack_key_text(p.0, p.1);
            let no_grace = grace_period.secs == 0 && grace_period.nanos == 0;
            let ripe = marks.contains_key(key) && (instant_of(marks[key]) matches Some(then) && (
            grace_period.secs * 1_000_000_000 + grace_period.nanos <= nanos_between(now, then)
                || no_grace));
            &&& deletes@.no_duplicates()
            &&& deletes@.len() + mut_ref_future(budget) == mut_ref_current(budget)
            &&& deletes@.contains(p) ==> dead.contains(p) && (ripe || (no_grace
                && !marks.contains_key(key)))
            &&& mut_ref_future(budget) > 0 && dead.contains(p) && (ripe || (no_grace
                && !marks.contains_key(key))) ==> deletes@.contains(p)
            &&& dead.contains(p) && !marks.contains_key(key) ==> mut_ref_future(
                scan,
            ).delta@.newly_dead_packs.contains((key, rfc3339_of(now.0, now.1)))
            &&& mut_ref_future(scan).stats.dead_found == dead.len()
        }),
{
    let dead = mut_ref_current(scan).maybe_dead@;
    let marks = state.dead_packs@;
    let start = mut_ref_current(budget) as nat;
    let order = choose|order: Seq<PackRef>|
        {
            let d = #[trigger] decided(order, marks, grace_period, now, start);
            &&& order.no_duplicates()
            &&& order.to_set() == dead
            &&& d.eligible <= dead.len()
            &&& deletes@ == d.deletes
            &&& mut_ref_future(budget) == start - d.deletes.len()
            &&& mut_ref_future(scan).delta@ == (Delta {
                newly_dead_packs: d.newly_dead,
                ..mut_ref_current(scan).delta@
            })
            &&& mut_ref_future(scan).stats == (GcStats {
                dead_found: dead.len() as usize,
                eligible_for_deletion: d.eligible as usize,
                ..mut_ref_current(scan).stats
            })
        };
    assert(decided(order, marks, grace_period, now, start).deletes == deletes@);
    lemma_decided(order, marks, grace_period, now, start);
    if dead.contains(p) {
        assert(order.to_set().contains(p));
        assert(order.contains(p));
    }
    if deletes@.contains(p) {
        assert(order.contains(p));
        assert(order.to_set().contains(p));
    }
}

/// What a run deletes and reports. A dry run deletes nothing and reports what it would have
/// deleted; any other deletes what was planned and reports what was deleted in fact, which
/// leaves the marks.
pub proof fn law_run_reports(
    plan: PrefixPlan,
    dry_run: bool,
    packs: Vec<PackRef>,
    results: Vec<(PackRef, bool)>,
    done: (GcStateDelta, GcStats),
)
    requires
        call_ensures(PrefixPlan::packs_to_delete, (&plan, dry_run), packs),
        call_ensures(PrefixPlan::finish, (plan, dry_run, &results), done),
        plan.decided,
    ensures
        dry_run ==> packs@.len() == 0 && done.1.packs_deleted == plan.deletes@.len() && done.0@
            == plan.delta@,
        !dry_run ==> packs@ == plan.deletes@ && done.1.packs_deleted == results@.filter(
            |r: (PackRef, bool)| r.1,
        ).len(),
        !dry_run ==> forall|i: int|
            0 <= i < results@.len() && (#[trigger] results@[i]).1 ==> done.0@.deleted_packs.contains(
                pack_key_text(results@[i].0.0, results@[i].0.1),
            ),
        !dry_run ==> done.0@.newly_dead_packs == plan.delta@.newly_dead_packs
            && done.0@.revived_packs == plan.delta@.revived_packs,
        done.1.prefixes_scanned == 1,
{
    law_successes_are_recorded(results@);
    assert(results.len() <= usize::MAX);
    assert(plan.deletes.len() <= usize::MAX);
    results@.lemma_filter_len(|r: (PackRef, bool)| r.1);
}

/// A slot is claimed exactly if there is one, and there is one fewer afterwards.
pub proof fn law_slot_is_claimed(budget: &mut usize, claimed: bool)
    requires
        call_ensures(try_claim_delete_slot, (budget,), claimed),
    ensures
        claimed <==> mut_ref_current(budget) > 0,
        claimed ==> mut_ref_future(budget) == mut_ref_current(budget) - 1,
        !claimed ==> mut_ref_future(budget) == 0,
        mut_ref_future(budget) == after_claims(mut_ref_current(budget) as nat, 1),
{
    assert(after_claims(mut_ref_current(budget) as nat, 0) == mut_ref_current(budget) as nat);
}

/// The packs of a listing are those that its paths name.
pub proof fn law_packs_are_listed(
    paths: Vec<String>,
    prefix: &str,
    packs: PackSet,
    i: int,
    rel: Seq<char>,
    p: PackRef,
)
    requires
        call_ensures(list_all_packs, (&paths, prefix), packs),
    ensures
        0 <= i < paths@.len() && paths@[i]@ == prefix@ + rel && pack_at(rel) == Some(p)
            ==> packs@.contains(p),
        packs@.contains(p) ==> exists|j: int|
            0 <= j < paths@.len() && prefix@.is_prefix_of(#[trigger] paths@[j]@) && pack_at(
                paths@[j]@.skip(prefix@.len() as int),
            ) == Some(p),
{
    let whole = prefix@ + rel;
    assert(whole.subrange(0, prefix@.len() as int) =~= prefix@);
    assert(whole.skip(prefix@.len() as int) =~= rel);
    if 0 <= i < paths@.len() && paths@[i]@ == whole && pack_at(rel) == Some(p) {
        assert(listed_pack(texts(paths@)[i], prefix@) == Some(p));
    }
    if packs@.contains(p) {
        let j = choose|j: int|
            0 <= j < paths@.len() && listed_pack(#[trigger] texts(paths@)[j], prefix@) == Some(p);
        assert(texts(paths@)[j] == paths@[j]@);
    }
}

/// Whenever an export is reconciled, no pack that one of its manifests or snapshots lists is
/// deleted, one without a mark only if there is no grace period, and no more than the budget
/// allows. If a manifest could not be read, nothing is deleted.
pub proof fn law_reconciliation(
    listing: PrefixListing,
    state: GcState,
    grace_period: Duration,
    budget: &mut usize,
    plan: PrefixPlan,
    k: int,
    p: PackRef,
)
    requires
        call_ensures(reconcile_prefix, (&listing, &state, grace_period, budget), plan),
    ensures
        plan.deletes@.len() + mut_ref_future(budget) == mut_ref_current(budget),
        plan.deletes@.contains(p) ==> garbage(listing, p),
        plan.deletes@.contains(p) && 0 <= k < listing.manifests@.len() ==> !(
        listing.manifests@[k] is Failed) && !(listing.manifests@[k] is Packs
            && listing.manifests@[k]->Packs_0@.contains(p)),
        plan.deletes@.contains(p) && !state.dead_packs@.contains_key(pack_key_text(p.0, p.1))
            ==> grace_period.secs == 0 && grace_period.nanos == 0,
        garbage(listing, p) && !state.dead_packs@.contains_key(pack_key_text(p.0, p.1))
            ==> exists|i: int|
            0 <= i < plan.delta@.newly_dead_packs.len() && (
            #[trigger] plan.delta@.newly_dead_packs[i]).0 == pack_key_text(p.0, p.1),
        garbage(listing, p) && grace_period.secs == 0 && grace_period.nanos == 0
            && !state.dead_packs@.contains_key(pack_key_text(p.0, p.1)) && listing.paths@.len()
            <= mut_ref_current(budget) ==> plan.deletes@.contains(p),
{
    let marks = state.dead_packs@;
    let start = mut_ref_current(budget);
    let left = mut_ref_future(budget);
    let now = choose|now: Instant|
        valid_instant(now) && #[trigger] is_plan(
            listing,
            marks,
            grace_period,
            now,
            start,
            plan,
            left,
        );
    lemma_dead_fit(listing, marks);
    law_budget_caps_deletes(listing, marks, grace_period, now, start, plan, left);
    law_all_garbage_is_collected(listing, marks, grace_period, now, start, plan, left, p);
    if plan.deletes@.contains(p) {
        law_no_listed_pack_is_deleted(listing, marks, grace_period, now, start, plan, left, p);
    }
    if garbage(listing, p) && !marks.contains_key(pack_key_text(p.0, p.1)) {
        let mark = (pack_key_text(p.0, p.1), rfc3339_of(now.0, now.1));
        assert(plan.delta@.newly_dead_packs.contains(mark));
        let i = choose|i: int|
            0 <= i < plan.delta@.newly_dead_packs.len() && plan.delta@.newly_dead_packs[i] == mark;
        assert(plan.delta@.newly_dead_packs[i].0 == mark.0);
    }
}

proof fn lemma_filter_is_set(order: Seq<PackRef>, f: spec_fn(PackRef) -> bool)
    requires
        order.no_duplicates(),
    ensures
        order.filter(f).no_duplicates(),
        forall|p: PackRef| #[trigger] order.filter(f).contains(p) <==> order.contains(p) && f(p),
    decreases order.len(),
{
    reveal(Seq::filter);
    if order.len() > 0 {
        let rest = order.drop_last();
        let last = order.last();
        assert(order =~= rest.push(last));
        assert forall|i: int, j: int|
            0 <= i < rest.len() && 0 <= j < rest.len() && i != j implies rest[i] != rest[j] by {
            assert(order[i] != order[j]);
        }
        lemma_filter_is_set(rest, f);
        if rest.contains(last) {
            let i = choose|i: int| 0 <= i < rest.len() && rest[i] == last;
            assert(order[i] != order[order.len() - 1]);
        }
        let kept = rest.filter(f);
        let all = order.filter(f);
        assert(!kept.contains(last));
        if f(last) {
            assert(all == kept.push(last));
            assert forall|i: int, j: int|
                0 <= i < all.len() && 0 <= j < all.len() && i != j implies all[i] != all[j] by {
                if i < kept.len() && j < kept.len() {
                    assert(kept[i] != kept[j]);
                } else if i < kept.len() {
                    assert(kept.contains(kept[i]));
                } else {
                    assert(kept.contains(kept[j]));
                }
            }
        } else {
            assert(all == kept);
        }
        assert forall|p: PackRef| #[trigger] all.contains(p) <==> order.contains(p) && f(p) by {
            lemma_push_contains(rest, last, p);
            lemma_push_contains(kept, last, p);
        }
    }
}

proof fn lemma_all_checked(maybe_dead: Set<PackRef>, snapshots: Seq<Fetched>, i: int)
    requires
        0 <= i <= snapshots.len(),
    ensures
        ({
            let c = checked(maybe_dead, snapshots, i);
            !c.failed && c.left != Set::<PackRef>::empty() ==> c.checked == snapshots.skip(i).filter(
                |f: Fetched| f is Packs,
            ).len()
        }),
    decreases snapshots.len() - i,
{
    let read = |f: Fetched| f is Packs;
    if i < snapshots.len() {
        let one = seq![snapshots[i]];
        let rest = snapshots.skip(i + 1);
        assert(snapshots.skip(i) =~= one + rest);
        Seq::filter_distributes_over_add(one, rest, read);
        assert(one.filter(read).len() == if snapshots[i] is Packs {
            1int
        } else {
            0int
        }) by {
            reveal(Seq::filter);
            assert(one.drop_last() =~= Seq::empty());
            assert(one.drop_last().filter(read) =~= Seq::empty());
        }
        match snapshots[i] {
            Fetched::Packs(packs) => {
                lemma_all_checked(maybe_dead.difference(packs@.to_set()), snapshots, i + 1);
            },
            Fetched::Gone => {
                lemma_all_checked(maybe_dead, snapshots, i + 1);
            },
            Fetched::Failed => {},
        }
    } else {
        assert(snapshots.skip(i) =~= Seq::empty());
        reveal(Seq::filter);
    }
}

/// More counters of a plan: the packs that manifests list, the garbage whose time has come,
/// whether the budget has room for it or not, and the snapshots that were looked at, which are
/// all of them where there is garbage. An export counts as scanned once nothing more is to be
/// decided about it.
pub proof fn law_plan_counts_all(
    listing: PrefixListing,
    marks: Map<Seq<char>, Seq<char>>,
    grace_period: Duration,
    now: Instant,
    budget: usize,
    plan: PrefixPlan,
    left: usize,
)
    requires
        is_plan(listing, marks, grace_period, now, budget, plan, left),
        listing.live().len() <= usize::MAX,
    ensures
        plan.stats.manifest_errors == 0 ==> plan.stats.live_packs == listing.live().len(),
        plan.stats.eligible_for_deletion == Set::new(
            |p: PackRef|
                {
                    let key = pack_key_text(p.0, p.1);
                    let no_grace = grace_period.secs == 0 && grace_period.nanos == 0;
                    &&& plan.decided
                    &&& garbage(listing, p)
                    &&& (!marks.contains_key(key) && no_grace) || (marks.contains_key(key) && (
                    instant_of(marks[key]) matches Some(then) && (grace_period.secs * 1_000_000_000
                        + grace_period.nanos <= nanos_between(now, then) || no_grace)))
                },
        ).len(),
        plan.decided && plan.stats.dead_found > 0 ==> plan.stats.snapshots_checked
            == listing.snapshots@.filter(|f: Fetched| f is Packs).len(),
        plan.stats.prefixes_scanned == if plan.decided || plan.stats.manifest_errors > 0 {
            0int
        } else {
            1int
        },
{
    law_plan_counts(listing, marks, grace_period, now, budget, plan, left);
    law_manifests_are_counted(listing.manifests@);
    assert(listing.manifests.len() <= usize::MAX);
    let ripe = Set::new(
        |p: PackRef|
            {
                let key = pack_key_text(p.0, p.1);
                let no_grace = grace_period.secs == 0 && grace_period.nanos == 0;
                &&& plan.decided
                &&& garbage(listing, p)
                &&& (!marks.contains_key(key) && no_grace) || (marks.contains_key(key) && (instant_of(
                    marks[key],
                ) matches Some(then) && (grace_period.secs * 1_000_000_000 + grace_period.nanos
                    <= nanos_between(now, then) || no_grace)))
            },
    );
    lemma_failed_snapshot(listing.listed(marks).unreferenced, listing.snapshots@, 0);
    assert(listing.snapshots.len() <= usize::MAX);
    if plan.decided {
        let order = choose|order: Seq<PackRef>|
            is_decision(listing, marks, grace_period, now, budget, plan, left, order);
        let can = |p: PackRef| can_delete(p, marks, grace_period, now);
        lemma_decided(order, marks, grace_period, now, budget as nat);
        lemma_decided_marks(order, marks, grace_period, now, budget as nat);
        lemma_filter_is_set(order, can);
        lemma_dead_fit(listing, marks);
        order.unique_seq_to_set();
        order.lemma_filter_len(can);
        order.filter(can).unique_seq_to_set();
        assert forall|p: PackRef| ripe.contains(p) == order.filter(can).to_set().contains(p) by {
            lemma_garbage(listing, marks, grace_period, now, budget, plan, left, p);
            assert(order.contains(p) == order.to_set().contains(p));
            assert(order.filter(can).contains(p) == (order.contains(p) && can(p)));
        }
        assert(ripe =~= order.filter(can).to_set());
        lemma_all_checked(listing.listed(marks).unreferenced, listing.snapshots@, 0);
        assert(listing.snapshots@.skip(0) =~= listing.snapshots@);
        if plan.stats.dead_found > 0 {
            assert(listing.checked(marks).left != Set::<PackRef>::empty());
        }
    } else {
        assert(ripe =~= Set::empty());
    }
}

/// A slot can be had exactly if the budget is not used up, and takes one of it.
pub proof fn law_delete_slot(budget: usize, left: Option<usize>)
    requires
        call_ensures(delete_slot, (budget,), left),
    ensures
        left is Some <==> budget > 0,
        left matches Some(n) ==> n + 1 == budget,
{
}

} // verus!
