//! Reconciliation of the pool of layers that images share.
//!
//! A layer is live if some image refers to its digest. The grace period is what
//! makes this safe while an image is being stored: its layers are uploaded before
//! the image is, and look unreferenced until then.

use vstd::prelude::*;
use crate::gc::discover::{ascending, insert_ascending};
use crate::gc::listing::{
    digest_hex, first_part, hex_of_digest, law_digest_hex, law_first_part, law_part_is_in_path,
    layer_of_path,
};
use crate::gc::prefix::{lemma_same_filter, try_claim_delete_slot};
use crate::gc::report::{zero_stats, GcStats};
use crate::gc::state::{
    eligible, no_delta, text_pairs, texts, Delta, GcState, GcStateDelta,
};
use crate::time::{
    instant_of, nanos_between, rfc3339_of, to_rfc3339, utc_now, valid_instant, Duration, Instant,
};

verus! {

/// What becomes of a layer.
#[derive(Debug, Clone, Copy, PartialEq, Eq, Structural)]
pub enum LayerFate {
    /// An image refers to it; `revived` if it was marked dead.
    Live { revived: bool },
    /// It could be deleted, in a dry run.
    Eligible,
    /// It could be deleted, but the budget is used up.
    NoBudget,
    /// It is deleted.
    Delete,
    /// It is marked dead.
    NewlyDead,
    /// It stays marked dead.
    Waiting,
}

/// What becomes of a layer.
pub open spec fn fate_of(
    digest: Seq<char>,
    is_live: bool,
    marks: Map<Seq<char>, Seq<char>>,
    grace_period: Duration,
    now: Instant,
    budget: nat,
    dry_run: bool,
) -> LayerFate {
    if is_live {
        LayerFate::Live { revived: marks.contains_key(digest) }
    } else if eligible(marks, digest, now, grace_period) {
        if dry_run {
            LayerFate::Eligible
        } else if budget > 0 {
            LayerFate::Delete
        } else {
            LayerFate::NoBudget
        }
    } else if marks.contains_key(digest) {
        LayerFate::Waiting
    } else {
        LayerFate::NewlyDead
    }
}

/// Decides about one layer at `now`. A delete claims a slot of the budget.
pub fn layer_fate(
    digest: &String,
    is_live: bool,
    state: &GcState,
    grace_period: Duration,
    budget: &mut usize,
    dry_run: bool,
    now: Instant,
) -> (fate: LayerFate)
    requires
        state.wf(),
        valid_instant(now),
    ensures
        fate == fate_of(
            digest@,
            is_live,
            state.dead_layers@,
            grace_period,
            now,
            *old(budget) as nat,
            dry_run,
        ),
        *final(budget) == if fate is Delete {
            (*old(budget) - 1) as usize
        } else {
            *old(budget)
        },
{
    if is_live {
        return LayerFate::Live { revived: state.dead_layers.contains_key(digest) };
    }
    if state.is_layer_eligible_at(digest, grace_period, now) {
        if dry_run {
            return LayerFate::Eligible;
        }
        if !try_claim_delete_slot(budget) {
            return LayerFate::NoBudget;
        }
        return LayerFate::Delete;
    }
    if state.dead_layers.contains_key(digest) {
        LayerFate::Waiting
    } else {
        LayerFate::NewlyDead
    }
}

/// What is decided about layers.
#[verifier::ext_equal]
pub struct LayerDecision {
    pub live: nat,
    pub dead: nat,
    pub eligible: nat,
    pub deletes: Seq<Seq<char>>,
    pub revived: Seq<Seq<char>>,
    pub newly_dead: Seq<(Seq<char>, Seq<char>)>,
}

/// What is decided about the layers that are present, given those that are live.
pub open spec fn layers_decided(
    present: Seq<Seq<char>>,
    live: Seq<Seq<char>>,
    marks: Map<Seq<char>, Seq<char>>,
    grace_period: Duration,
    now: Instant,
    budget: nat,
    dry_run: bool,
) -> LayerDecision
    decreases present.len(),
{
    if present.len() == 0 {
        LayerDecision {
            live: 0,
            dead: 0,
            eligible: 0,
            deletes: Seq::empty(),
            revived: Seq::empty(),
            newly_dead: Seq::empty(),
        }
    } else {
        let before = layers_decided(
            present.drop_last(),
            live,
            marks,
            grace_period,
            now,
            budget,
            dry_run,
        );
        let digest = present.last();
        let left = (budget - before.deletes.len()) as nat;
        match fate_of(
            digest,
            live.contains(digest),
            marks,
            grace_period,
            now,
            left,
            dry_run,
        ) {
            LayerFate::Live { revived } => LayerDecision {
                live: before.live + 1,
                revived: if revived {
                    before.revived.push(digest)
                } else {
                    before.revived
                },
                ..before
            },
            LayerFate::Eligible => LayerDecision {
                dead: before.dead + 1,
                eligible: before.eligible + 1,
                ..before
            },
            LayerFate::Delete => LayerDecision {
                dead: before.dead + 1,
                deletes: before.deletes.push(digest),
                ..before
            },
            LayerFate::NewlyDead => LayerDecision {
                dead: before.dead + 1,
                newly_dead: before.newly_dead.push((digest, rfc3339_of(now.0, now.1))),
                ..before
            },
            _ => LayerDecision { dead: before.dead + 1, ..before },
        }
    }
}

/// What a reconciliation of the layers comes to. The delta holds once the layers
/// to delete are deleted.
#[derive(Debug)]
pub struct LayerPlan {
    pub delta: GcStateDelta,
    pub stats: GcStats,
    /// The layers to delete.
    pub deletes: Vec<String>,
}

/// Whether `plan` is what a reconciliation of the layers comes to that starts with
/// a budget of deletes and leaves `left` of it.
pub open spec fn is_layer_plan(
    live: Seq<Seq<char>>,
    present: Seq<Seq<char>>,
    marks: Map<Seq<char>, Seq<char>>,
    grace_period: Duration,
    now: Instant,
    dry_run: bool,
    budget: usize,
    plan: LayerPlan,
    left: usize,
) -> bool {
    let d = layers_decided(present, live, marks, grace_period, now, budget as nat, dry_run);
    &&& texts(plan.deletes@) == d.deletes
    &&& left == budget - d.deletes.len()
    &&& plan.delta@ == (Delta {
        newly_dead_layers: d.newly_dead,
        revived_layers: d.revived,
        deleted_layers: d.deletes,
        ..no_delta()
    })
    &&& plan.stats == (GcStats {
        live_layers: d.live as usize,
        dead_layers_found: d.dead as usize,
        eligible_layers: d.eligible as usize,
        layers_deleted: d.deletes.len() as usize,
        ..zero_stats()
    })
}

/// Whether a text is in a list.
pub fn contains_text(list: &Vec<String>, text: &String) -> (yes: bool)
    ensures
        yes == texts(list@).contains(text@),
{
    let mut i: usize = 0;
    while i < list.len()
        invariant
            i <= list@.len(),
            forall|j: int| 0 <= j < i ==> #[trigger] texts(list@)[j] != text@,
        decreases list@.len() - i,
    {
        if list[i] == *text {
            assert(texts(list@)[i as int] == text@);
            return true;
        }
        i = i + 1;
    }
    false
}

/// Reconcile the pool of layers at `now`: unreferenced layers are marked dead and,
/// after the grace period, deleted.
pub fn reconcile_layers_at(
    live: &Vec<String>,
    present: &Vec<String>,
    state: &GcState,
    grace_period: Duration,
    budget: &mut usize,
    dry_run: bool,
    now: Instant,
) -> (plan: LayerPlan)
    requires
        state.wf(),
        valid_instant(now),
    ensures
        is_layer_plan(
            texts(live@),
            texts(present@),
            state.dead_layers@,
            grace_period,
            now,
            dry_run,
            *old(budget),
            plan,
            *final(budget),
        ),
{
    let now_text: String = to_rfc3339(now);
    let mut plan = LayerPlan {
        delta: GcStateDelta::default(),
        stats: GcStats::default(),
        deletes: Vec::new(),
    };
    let ghost all = texts(present@);
    proof {
        assert(all.take(0) =~= Seq::empty());
        assert(texts(plan.deletes@) =~= Seq::empty());
    }
    let mut i: usize = 0;
    while i < present.len()
        invariant
            i <= present@.len(),
            all == texts(present@),
            state.wf(),
            valid_instant(now),
            now_text@ == rfc3339_of(now.0, now.1),
            *budget <= *old(budget),
            plan.stats.live_layers <= i,
            plan.stats.dead_layers_found <= i,
            plan.stats.eligible_layers <= i,
            plan.stats.layers_deleted <= i,
            ({
                let d = layers_decided(
                    all.take(i as int),
                    texts(live@),
                    state.dead_layers@,
                    grace_period,
                    now,
                    *old(budget) as nat,
                    dry_run,
                );
                d.live <= i && d.dead <= i && d.eligible <= i && d.deletes.len() <= i
            }),
            is_layer_plan(
                texts(live@),
                all.take(i as int),
                state.dead_layers@,
                grace_period,
                now,
                dry_run,
                *old(budget),
                plan,
                *budget,
            ),
        decreases present@.len() - i,
    {
        let digest: &String = &present[i];
        proof {
            let next = all.take(i + 1);
            assert(next.drop_last() =~= all.take(i as int));
            assert(next.last() == digest@);
        }
        let is_live: bool = contains_text(live, digest);
        match layer_fate(digest, is_live, state, grace_period, budget, dry_run, now) {
            LayerFate::Live { revived } => {
                plan.stats.live_layers = plan.stats.live_layers + 1;
                if revived {
                    let ghost before = plan.delta.revived_layers@;
                    plan.delta.revived_layers.push(digest.clone());
                    assert(texts(plan.delta.revived_layers@) =~= texts(before).push(digest@));
                }
            },
            LayerFate::Eligible => {
                plan.stats.dead_layers_found = plan.stats.dead_layers_found + 1;
                plan.stats.eligible_layers = plan.stats.eligible_layers + 1;
            },
            LayerFate::Delete => {
                plan.stats.dead_layers_found = plan.stats.dead_layers_found + 1;
                plan.stats.layers_deleted = plan.stats.layers_deleted + 1;
                let ghost before = plan.deletes@;
                let ghost before_deleted = plan.delta.deleted_layers@;
                plan.delta.deleted_layers.push(digest.clone());
                plan.deletes.push(digest.clone());
                assert(texts(plan.deletes@) =~= texts(before).push(digest@));
                assert(texts(plan.delta.deleted_layers@) =~= texts(before_deleted).push(digest@));
            },
            LayerFate::NewlyDead => {
                plan.stats.dead_layers_found = plan.stats.dead_layers_found + 1;
                let ghost before = plan.delta.newly_dead_layers@;
                plan.delta.newly_dead_layers.push((digest.clone(), now_text.clone()));
                assert(text_pairs(plan.delta.newly_dead_layers@) =~= text_pairs(before).push(
                    (digest@, now_text@),
                ));
            },
            LayerFate::NoBudget => {
                plan.stats.dead_layers_found = plan.stats.dead_layers_found + 1;
            },
            LayerFate::Waiting => {
                plan.stats.dead_layers_found = plan.stats.dead_layers_found + 1;
            },
        }
        i = i + 1;
    }
    assert(all.take(i as int) =~= all);
    plan
}

/// Reconcile the pool of layers.
pub fn reconcile_layers(
    live: &Vec<String>,
    present: &Vec<String>,
    state: &GcState,
    grace_period: Duration,
    budget: &mut usize,
    dry_run: bool,
) -> (plan: LayerPlan)
    requires
        state.wf(),
    ensures
        exists|now: Instant|
            valid_instant(now) && #[trigger] is_layer_plan(
                texts(live@),
                texts(present@),
                state.dead_layers@,
                grace_period,
                now,
                dry_run,
                *old(budget),
                plan,
                *final(budget),
            ),
{
    let now: Instant = utc_now();
    reconcile_layers_at(live, present, state, grace_period, budget, dry_run, now)
}

/// Collect the layer digests (hex) referenced by the images, given the layers of
/// each.
pub fn collect_referenced_layers(images: &Vec<Vec<String>>) -> (live: Vec<String>)
    ensures
        forall|digest: Seq<char>| #[trigger]
            texts(live@).contains(digest) == exists|i: int, j: int|
                refers_to(images@, i, j, digest),
        forall|i: int, j: int|
            0 <= i < images@.len() && 0 <= j < images@[i]@.len() ==> texts(live@).contains(
                hex_of_digest((#[trigger] images@[i]@[j])@),
            ),
        forall|digest: Seq<char>| #[trigger]
            texts(live@).contains(digest) ==> exists|i: int, j: int|
                0 <= i < images@.len() && 0 <= j < images@[i]@.len() && digest == hex_of_digest(
                    (#[trigger] images@[i]@[j])@,
                ),
        ascending(texts(live@)),
{
    let mut live: Vec<String> = Vec::new();
    let mut i: usize = 0;
    while i < images.len()
        invariant
            i <= images@.len(),
            ascending(texts(live@)),
            forall|digest: Seq<char>| #[trigger]
                texts(live@).contains(digest) == exists|a: int, b: int|
                    a < i && refers_to(images@, a, b, digest),
        decreases images@.len() - i,
    {
        let mut j: usize = 0;
        while j < images[i].len()
            invariant
                i < images@.len(),
                j <= images@[i as int]@.len(),
                ascending(texts(live@)),
                forall|digest: Seq<char>| #[trigger]
                    texts(live@).contains(digest) == exists|a: int, b: int|
                        (a < i || (a == i && b < j)) && refers_to(images@, a, b, digest),
            decreases images@[i as int]@.len() - j,
        {
            let hex: String = digest_hex(images[i][j].as_str());
            let ghost hex_text = hex@;
            let ghost before = texts(live@);
            insert_ascending(&mut live, hex);
            proof {
                assert forall|digest: Seq<char>| #[trigger]
                    texts(live@).contains(digest) == exists|a: int, b: int|
                        (a < i || (a == i && b < j + 1)) && refers_to(images@, a, b, digest) by {
                    if digest == hex_text {
                        assert(refers_to(images@, i as int, j as int, digest));
                    }
                    if before.contains(digest) {
                        let (a, b) = choose|a: int, b: int|
                            (a < i || (a == i && b < j)) && refers_to(images@, a, b, digest);
                        assert(refers_to(images@, a, b, digest));
                    }
                    if exists|a: int, b: int|
                        (a < i || (a == i && b < j + 1)) && refers_to(images@, a, b, digest) {
                        let (a, b) = choose|a: int, b: int|
                            (a < i || (a == i && b < j + 1)) && refers_to(images@, a, b, digest);
                        if a == i && b == j {
                            assert(digest == hex_text);
                        } else {
                            assert(a < i || (a == i && b < j));
                            assert(before.contains(digest));
                        }
                    }
                }
            }
            j = j + 1;
        }
        proof {
            assert forall|digest: Seq<char>| #[trigger]
                texts(live@).contains(digest) == exists|a: int, b: int|
                    a < i + 1 && refers_to(images@, a, b, digest) by {
                if texts(live@).contains(digest) {
                    let (a, b) = choose|a: int, b: int|
                        (a < i || (a == i && b < j)) && refers_to(images@, a, b, digest);
                    assert(a < i + 1 && refers_to(images@, a, b, digest));
                }
                if exists|a: int, b: int| a < i + 1 && refers_to(images@, a, b, digest) {
                    let (a, b) = choose|a: int, b: int|
                        a < i + 1 && refers_to(images@, a, b, digest);
                    assert((a < i || (a == i && b < j)) && refers_to(images@, a, b, digest));
                }
            }
        }
        i = i + 1;
    }
    proof {
        assert forall|a: int, b: int|
            0 <= a < images@.len() && 0 <= b < images@[a]@.len() implies texts(live@).contains(
            hex_of_digest((#[trigger] images@[a]@[b])@),
        ) by {
            assert(refers_to(images@, a, b, hex_of_digest(images@[a]@[b]@)));
        }
        assert forall|digest: Seq<char>| #[trigger] texts(live@).contains(digest) implies exists|
            a: int,
            b: int,
        |
            0 <= a < images@.len() && 0 <= b < images@[a]@.len() && digest == hex_of_digest(
                (#[trigger] images@[a]@[b])@,
            ) by {
            let (a, b) = choose|a: int, b: int| refers_to(images@, a, b, digest);
            assert(digest == hex_of_digest(images@[a]@[b]@));
        }
    }
    live
}

/// Whether layer `j` of image `i` has the given digest.
pub open spec fn refers_to(
    images: Seq<Vec<String>>,
    i: int,
    j: int,
    digest: Seq<char>,
) -> bool {
    0 <= i < images.len() && 0 <= j < images[i]@.len() && hex_of_digest(images[i]@[j]@) == digest
}

/// List the layer digests (hex) that have objects, given the paths that are listed
/// under the layers.
pub fn list_layer_digests(paths: &Vec<String>, prefix: &str) -> (digests: Vec<String>)
    ensures
        ascending(texts(digests@)),
        forall|digest: Seq<char>| #[trigger]
            texts(digests@).contains(digest) == exists|i: int|
                has_layer(texts(paths@), prefix@, i, digest),
        forall|i: int, digest: Seq<char>, rest: Seq<char>|
            0 <= i < paths@.len() && (#[trigger] paths@[i])@ == #[trigger] (prefix@ + digest.push(
                '/',
            ) + rest) && !digest.contains('/') ==> texts(digests@).contains(digest),
        forall|digest: Seq<char>| #[trigger]
            texts(digests@).contains(digest) ==> !digest.contains('/') && exists|i: int|
                0 <= i < paths@.len() && (prefix@ + digest.push('/')).is_prefix_of(
                    (#[trigger] paths@[i])@,
                ),
{
    let mut digests: Vec<String> = Vec::new();
    let mut i: usize = 0;
    while i < paths.len()
        invariant
            i <= paths@.len(),
            ascending(texts(digests@)),
            forall|digest: Seq<char>| #[trigger]
                texts(digests@).contains(digest) == exists|a: int|
                    a < i && has_layer(texts(paths@), prefix@, a, digest),
        decreases paths@.len() - i,
    {
        let ghost before = texts(digests@);
        let found: Option<String> = layer_of_path(paths[i].as_str(), prefix);
        let ghost part = first_part(texts(paths@)[i as int], prefix@);
        if let Some(digest) = found {
            insert_ascending(&mut digests, digest);
        }
        proof {
            assert forall|digest: Seq<char>| #[trigger]
                texts(digests@).contains(digest) == exists|a: int|
                    a < i + 1 && has_layer(texts(paths@), prefix@, a, digest) by {
                if part == Some(digest) {
                    assert(has_layer(texts(paths@), prefix@, i as int, digest));
                }
                if before.contains(digest) {
                    let a = choose|a: int| a < i && has_layer(texts(paths@), prefix@, a, digest);
                    assert(a < i + 1 && has_layer(texts(paths@), prefix@, a, digest));
                }
                if exists|a: int| a < i + 1 && has_layer(texts(paths@), prefix@, a, digest) {
                    let a = choose|a: int|
                        a < i + 1 && has_layer(texts(paths@), prefix@, a, digest);
                    if a < i {
                        assert(before.contains(digest));
                    }
                }
            }
        }
        i = i + 1;
    }
    proof {
        assert forall|a: int, digest: Seq<char>, rest: Seq<char>|
            0 <= a < paths@.len() && (#[trigger] paths@[a])@ == #[trigger] (prefix@ + digest.push(
                '/',
            ) + rest) && !digest.contains('/') implies texts(digests@).contains(digest) by {
            law_first_part(prefix@, digest, rest);
            assert(has_layer(texts(paths@), prefix@, a, digest));
        }
        assert forall|digest: Seq<char>| #[trigger]
            texts(digests@).contains(digest) implies !digest.contains('/') && exists|a: int|
            0 <= a < paths@.len() && (prefix@ + digest.push('/')).is_prefix_of(
                (#[trigger] paths@[a])@,
            ) by {
            let a = choose|a: int| has_layer(texts(paths@), prefix@, a, digest);
            law_part_is_in_path(paths@[a]@, prefix@);
        }
    }
    digests
}

/// Whether path `i` is that of an object of the given layer.
pub open spec fn has_layer(
    paths: Seq<Seq<char>>,
    prefix: Seq<char>,
    i: int,
    digest: Seq<char>,
) -> bool {
    0 <= i < paths.len() && first_part(paths[i], prefix) == Some(digest)
}

proof fn lemma_layers_decided(
    present: Seq<Seq<char>>,
    live: Seq<Seq<char>>,
    marks: Map<Seq<char>, Seq<char>>,
    grace_period: Duration,
    now: Instant,
    budget: nat,
    dry_run: bool,
)
    ensures
        ({
            let d = layers_decided(present, live, marks, grace_period, now, budget, dry_run);
            &&& d.deletes.len() <= budget
            &&& dry_run ==> d.deletes.len() == 0
            &&& forall|digest: Seq<char>| #[trigger]
                d.deletes.contains(digest) ==> present.contains(digest) && !live.contains(digest)
                    && eligible(marks, digest, now, grace_period)
            &&& forall|digest: Seq<char>| #[trigger]
                present.contains(digest) && live.contains(digest) && marks.contains_key(digest)
                    ==> d.revived.contains(digest)
            &&& !dry_run && d.deletes.len() < budget ==> forall|digest: Seq<char>| #[trigger]
                present.contains(digest) && !live.contains(digest) && eligible(
                    marks,
                    digest,
                    now,
                    grace_period,
                ) ==> d.deletes.contains(digest)
            &&& forall|digest: Seq<char>| #[trigger]
                present.contains(digest) && !live.contains(digest) && !marks.contains_key(digest)
                    ==> d.newly_dead.contains((digest, rfc3339_of(now.0, now.1)))
        }),
    decreases present.len(),
{
    if present.len() > 0 {
        let rest = present.drop_last();
        let last = present.last();
        lemma_layers_decided(rest, live, marks, grace_period, now, budget, dry_run);
        let d = layers_decided(present, live, marks, grace_period, now, budget, dry_run);
        let before = layers_decided(rest, live, marks, grace_period, now, budget, dry_run);
        assert(present =~= rest.push(last));
        assert forall|digest: Seq<char>| #[trigger] present.contains(digest) == (rest.contains(
            digest,
        ) || digest == last) by {
            lemma_push_contains(rest, last, digest);
        }
        assert forall|digest: Seq<char>| #[trigger] d.deletes.contains(
            digest,
        ) implies present.contains(digest) && !live.contains(digest) && eligible(
            marks,
            digest,
            now,
            grace_period,
        ) by {
            lemma_push_contains(before.deletes, last, digest);
        }
        assert forall|digest: Seq<char>| #[trigger]
            present.contains(digest) && live.contains(digest) && marks.contains_key(
                digest,
            ) implies d.revived.contains(digest) by {
            lemma_push_contains(before.revived, last, digest);
        }
        if !dry_run && d.deletes.len() < budget {
            assert forall|digest: Seq<char>| #[trigger]
                present.contains(digest) && !live.contains(digest) && eligible(
                    marks,
                    digest,
                    now,
                    grace_period,
                ) implies d.deletes.contains(digest) by {
                lemma_push_contains(before.deletes, last, digest);
            }
        }
        assert forall|digest: Seq<char>| #[trigger]
            present.contains(digest) && !live.contains(digest) && !marks.contains_key(
                digest,
            ) implies d.newly_dead.contains((digest, rfc3339_of(now.0, now.1))) by {
            let mark = (digest, rfc3339_of(now.0, now.1));
            if rest.contains(digest) {
                let i = choose|i: int|
                    0 <= i < before.newly_dead.len() && before.newly_dead[i] == mark;
                assert(d.newly_dead[i] == mark);
            } else {
                assert(d.newly_dead[d.newly_dead.len() - 1] == mark);
            }
        }
    }
}

proof fn lemma_push_contains(s: Seq<Seq<char>>, q: Seq<char>, p: Seq<char>)
    ensures
        s.push(q).contains(p) == (s.contains(p) || p == q),
{
    let t = s.push(q);
    assert(t[s.len() as int] == q);
    if s.contains(p) {
        let i = choose|i: int| 0 <= i < s.len() && s[i] == p;
        assert(t[i] == p);
    }
    if t.contains(p) {
        let i = choose|i: int| 0 <= i < t.len() && t[i] == p;
        if i < s.len() {
            assert(s[i] == p);
        }
    }
}

/// Only orphaned layers are deleted: no image refers to them, and they have been
/// marked for the grace period. A dry run deletes none, and no run more than its
/// budget.
pub proof fn law_only_orphaned_layers_are_deleted(
    live: Seq<Seq<char>>,
    present: Seq<Seq<char>>,
    marks: Map<Seq<char>, Seq<char>>,
    grace_period: Duration,
    now: Instant,
    dry_run: bool,
    budget: usize,
    plan: LayerPlan,
    left: usize,
)
    requires
        is_layer_plan(live, present, marks, grace_period, now, dry_run, budget, plan, left),
    ensures
        plan.deletes@.len() + left == budget,
        dry_run ==> plan.deletes@.len() == 0,
        forall|digest: Seq<char>| #[trigger]
            texts(plan.deletes@).contains(digest) ==> present.contains(digest) && !live.contains(
                digest,
            ) && eligible(marks, digest, now, grace_period),
{
    lemma_layers_decided(present, live, marks, grace_period, now, budget as nat, dry_run);
}

/// A layer that is seen orphaned for the first time is marked and not deleted,
/// whatever the grace period.
pub proof fn law_new_orphans_are_kept(
    live: Seq<Seq<char>>,
    present: Seq<Seq<char>>,
    marks: Map<Seq<char>, Seq<char>>,
    grace_period: Duration,
    now: Instant,
    dry_run: bool,
    budget: usize,
    plan: LayerPlan,
    left: usize,
    digest: Seq<char>,
)
    requires
        is_layer_plan(live, present, marks, grace_period, now, dry_run, budget, plan, left),
        !marks.contains_key(digest),
    ensures
        !texts(plan.deletes@).contains(digest),
        present.contains(digest) && !live.contains(digest)
            ==> plan.delta@.newly_dead_layers.contains((digest, rfc3339_of(now.0, now.1))),
{
    lemma_layers_decided(present, live, marks, grace_period, now, budget as nat, dry_run);
}

/// A layer that an image refers to again is revived.
pub proof fn law_referenced_layers_are_revived(
    live: Seq<Seq<char>>,
    present: Seq<Seq<char>>,
    marks: Map<Seq<char>, Seq<char>>,
    grace_period: Duration,
    now: Instant,
    dry_run: bool,
    budget: usize,
    plan: LayerPlan,
    left: usize,
    digest: Seq<char>,
)
    requires
        is_layer_plan(live, present, marks, grace_period, now, dry_run, budget, plan, left),
        present.contains(digest),
        live.contains(digest),
        marks.contains_key(digest),
    ensures
        plan.delta@.revived_layers.contains(digest),
{
    lemma_layers_decided(present, live, marks, grace_period, now, budget as nat, dry_run);
}

/// An orphaned layer that has been marked for the grace period is deleted, where
/// the budget is not used up.
pub proof fn law_orphaned_layers_are_deleted(
    live: Seq<Seq<char>>,
    present: Seq<Seq<char>>,
    marks: Map<Seq<char>, Seq<char>>,
    grace_period: Duration,
    now: Instant,
    budget: usize,
    plan: LayerPlan,
    left: usize,
    digest: Seq<char>,
)
    requires
        is_layer_plan(live, present, marks, grace_period, now, false, budget, plan, left),
        left > 0,
        present.contains(digest),
        !live.contains(digest),
        eligible(marks, digest, now, grace_period),
    ensures
        texts(plan.deletes@).contains(digest),
{
    lemma_layers_decided(present, live, marks, grace_period, now, budget as nat, false);
}

proof fn lemma_layers_counted(
    present: Seq<Seq<char>>,
    live: Seq<Seq<char>>,
    marks: Map<Seq<char>, Seq<char>>,
    grace_period: Duration,
    now: Instant,
    budget: nat,
    dry_run: bool,
)
    ensures
        ({
            let d = layers_decided(present, live, marks, grace_period, now, budget, dry_run);
            let doomed = present.filter(
                |digest: Seq<char>|
                    !live.contains(digest) && eligible(marks, digest, now, grace_period),
            ).len();
            &&& d.live == present.filter(|digest: Seq<char>| live.contains(digest)).len()
            &&& d.live + d.dead == present.len()
            &&& d.deletes.len() == if dry_run {
                0
            } else if doomed < budget {
                doomed
            } else {
                budget
            }
            &&& d.eligible == if dry_run {
                doomed
            } else {
                0
            }
            &&& forall|i: int|
                0 <= i < d.newly_dead.len() ==> {
                    let m = #[trigger] d.newly_dead[i];
                    &&& m.1 == rfc3339_of(now.0, now.1)
                    &&& !marks.contains_key(m.0)
                    &&& !live.contains(m.0)
                    &&& present.contains(m.0)
                }
            &&& forall|i: int|
                0 <= i < d.revived.len() ==> {
                    let m = #[trigger] d.revived[i];
                    &&& marks.contains_key(m)
                    &&& live.contains(m)
                    &&& present.contains(m)
                }
        }),
    decreases present.len(),
{
    reveal(Seq::filter);
    if present.len() > 0 {
        let rest = present.drop_last();
        let last = present.last();
        lemma_layers_counted(rest, live, marks, grace_period, now, budget, dry_run);
        let d = layers_decided(present, live, marks, grace_period, now, budget, dry_run);
        let before = layers_decided(rest, live, marks, grace_period, now, budget, dry_run);
        assert(present =~= rest.push(last));
        assert forall|digest: Seq<char>| #[trigger] present.contains(digest) == (rest.contains(
            digest,
        ) || digest == last) by {
            lemma_push_contains(rest, last, digest);
        }
        assert forall|i: int| 0 <= i < d.newly_dead.len() implies {
            let m = #[trigger] d.newly_dead[i];
            &&& m.1 == rfc3339_of(now.0, now.1)
            &&& !marks.contains_key(m.0)
            &&& !live.contains(m.0)
            &&& present.contains(m.0)
        } by {
            if i < before.newly_dead.len() {
                assert(d.newly_dead[i] == before.newly_dead[i]);
            }
        }
        assert forall|i: int| 0 <= i < d.revived.len() implies {
            let m = #[trigger] d.revived[i];
            &&& marks.contains_key(m)
            &&& live.contains(m)
            &&& present.contains(m)
        } by {
            if i < before.revived.len() {
                assert(d.revived[i] == before.revived[i]);
            }
        }
    }
}

/// No layer of an image is deleted, whichever image it is and wherever the layer
/// stands in it. `live` is what was collected from the images.
pub proof fn law_no_layer_of_an_image_is_deleted(
    images: Seq<Vec<String>>,
    live: Seq<Seq<char>>,
    present: Seq<Seq<char>>,
    marks: Map<Seq<char>, Seq<char>>,
    grace_period: Duration,
    now: Instant,
    dry_run: bool,
    budget: usize,
    plan: LayerPlan,
    left: usize,
)
    requires
        forall|digest: Seq<char>| #[trigger]
            live.contains(digest) == exists|i: int, j: int| refers_to(images, i, j, digest),
        is_layer_plan(live, present, marks, grace_period, now, dry_run, budget, plan, left),
    ensures
        forall|i: int, j: int, k: int|
            0 <= i < images.len() && 0 <= j < images[i]@.len() && 0 <= k < plan.deletes@.len()
                ==> hex_of_digest((#[trigger] images[i]@[j])@) != (#[trigger] plan.deletes@[k])@,
        forall|i: int, j: int, k: int|
            0 <= i < images.len() && 0 <= j < images[i]@.len() && 0 <= k < plan.deletes@.len()
                ==> (#[trigger] images[i]@[j])@ != "sha256:"@ + (#[trigger] plan.deletes@[k])@,
{
    law_only_orphaned_layers_are_deleted(
        live,
        present,
        marks,
        grace_period,
        now,
        dry_run,
        budget,
        plan,
        left,
    );
    assert forall|i: int, j: int, k: int|
        0 <= i < images.len() && 0 <= j < images[i]@.len() && 0 <= k
            < plan.deletes@.len() implies hex_of_digest((#[trigger] images[i]@[j])@) != (
    #[trigger] plan.deletes@[k])@ && images[i]@[j]@ != "sha256:"@ + plan.deletes@[k]@ by {
        let digest = hex_of_digest(images[i]@[j]@);
        assert(refers_to(images, i, j, digest));
        assert(texts(plan.deletes@)[k] == plan.deletes@[k]@);
        assert(texts(plan.deletes@).contains(plan.deletes@[k]@));
        law_digest_hex(plan.deletes@[k]@);
    }
}

/// What becomes of each layer, and how many there are of each kind. Every layer
/// that is present is live or dead. The dead ones that were marked at least the
/// grace period ago are deleted as far as the budget goes, and only counted in a
/// dry run. The dead ones without a mark are marked with the present time, and the
/// live ones lose their mark. What is deleted is also reported as deleted, and no
/// pack is touched.
pub proof fn law_layers_are_sorted_out(
    live: Seq<Seq<char>>,
    present: Seq<Seq<char>>,
    marks: Map<Seq<char>, Seq<char>>,
    grace_period: Duration,
    now: Instant,
    dry_run: bool,
    budget: usize,
    plan: LayerPlan,
    left: usize,
)
    requires
        is_layer_plan(live, present, marks, grace_period, now, dry_run, budget, plan, left),
        present.len() <= usize::MAX,
    ensures
        plan.stats.live_layers == present.filter(|digest: Seq<char>| live.contains(digest)).len(),
        plan.stats.live_layers + plan.stats.dead_layers_found == present.len(),
        ({
            let doomed = present.filter(
                |digest: Seq<char>|
                    {
                        &&& !live.contains(digest)
                        &&& marks.contains_key(digest)
                        &&& instant_of(marks[digest]) matches Some(then)
                        &&& grace_period.secs * 1_000_000_000 + grace_period.nanos
                            <= nanos_between(now, then) || (grace_period.secs == 0
                            && grace_period.nanos == 0)
                    },
            ).len();
            &&& plan.deletes@.len() == if dry_run {
                0
            } else if doomed < budget {
                doomed
            } else {
                budget as nat
            }
            &&& plan.stats.eligible_layers == if dry_run {
                doomed
            } else {
                0
            }
        }),
        plan.stats.layers_deleted == plan.deletes@.len(),
        plan.delta@.deleted_layers == texts(plan.deletes@),
        forall|digest: Seq<char>| #[trigger]
            plan.delta@.revived_layers.contains(digest) == (present.contains(digest)
                && live.contains(digest) && marks.contains_key(digest)),
        forall|digest: Seq<char>, time: Seq<char>| #[trigger]
            plan.delta@.newly_dead_layers.contains((digest, time)) == (present.contains(digest)
                && !live.contains(digest) && !marks.contains_key(digest) && time == rfc3339_of(
                now.0,
                now.1,
            )),
        plan.delta@.newly_dead_packs.len() == 0,
        plan.delta@.revived_packs.len() == 0,
        plan.delta@.deleted_packs.len() == 0,
        plan.stats.prefixes_scanned == 0 && plan.stats.manifests_scanned == 0
            && plan.stats.manifest_errors == 0 && plan.stats.live_packs == 0
            && plan.stats.known_packs == 0 && plan.stats.dead_found == 0
            && plan.stats.eligible_for_deletion == 0 && plan.stats.packs_deleted == 0
            && plan.stats.snapshots_checked == 0,
{
    lemma_layers_decided(present, live, marks, grace_period, now, budget as nat, dry_run);
    lemma_layers_counted(present, live, marks, grace_period, now, budget as nat, dry_run);
    let d = layers_decided(present, live, marks, grace_period, now, budget as nat, dry_run);
    let doomed = |digest: Seq<char>|
        !live.contains(digest) && eligible(marks, digest, now, grace_period);
    let raw = |digest: Seq<char>|
        {
            &&& !live.contains(digest)
            &&& marks.contains_key(digest)
            &&& instant_of(marks[digest]) matches Some(then)
            &&& grace_period.secs * 1_000_000_000 + grace_period.nanos <= nanos_between(now, then)
                || (grace_period.secs == 0 && grace_period.nanos == 0)
        };
    lemma_same_filter(present, doomed, raw);
    present.lemma_filter_len(doomed);
    assert forall|digest: Seq<char>| #[trigger]
        plan.delta@.revived_layers.contains(digest) == (present.contains(digest) && live.contains(
            digest,
        ) && marks.contains_key(digest)) by {
        if d.revived.contains(digest) {
            let i = choose|i: int| 0 <= i < d.revived.len() && d.revived[i] == digest;
            assert(d.revived[i] == digest);
        }
    }
    assert forall|digest: Seq<char>, time: Seq<char>| #[trigger]
        plan.delta@.newly_dead_layers.contains((digest, time)) == (present.contains(digest)
            && !live.contains(digest) && !marks.contains_key(digest) && time == rfc3339_of(
            now.0,
            now.1,
        )) by {
        if d.newly_dead.contains((digest, time)) {
            let i = choose|i: int|
                0 <= i < d.newly_dead.len() && d.newly_dead[i] == (digest, time);
            assert(d.newly_dead[i].0 == digest);
        }
    }
}

/// What becomes of a layer: a live one stays, and is revived if it was marked; a dead one is
/// deleted only if its mark is as old as the grace period, and only outside a dry run and
/// within the budget, of which it takes one slot.
pub proof fn law_layer_fate(
    digest: String,
    is_live: bool,
    state: GcState,
    grace_period: Duration,
    budget: &mut usize,
    dry_run: bool,
    now: Instant,
    fate: LayerFate,
)
    requires
        call_ensures(
            layer_fate,
            (&digest, is_live, &state, grace_period, budget, dry_run, now),
            fate,
        ),
    ensures
        ({
            let marks = state.dead_layers@;
            let ripe = marks.contains_key(digest@) && (instant_of(marks[digest@]) matches Some(then) && (
            grace_period.secs * 1_000_000_000 + grace_period.nanos <= nanos_between(now, then) || (
            grace_period.secs == 0 && grace_period.nanos == 0)));
            let slots = mut_ref_current(budget);
            &&& fate is Live <==> is_live
            &&& is_live ==> (fate->revived <==> marks.contains_key(digest@))
            &&& fate is Delete <==> !is_live && ripe && !dry_run && slots > 0
            &&& fate is NoBudget <==> !is_live && ripe && !dry_run && slots == 0
            &&& fate is Eligible <==> !is_live && ripe && dry_run
            &&& fate is NewlyDead <==> !is_live && !marks.contains_key(digest@)
            &&& fate is Waiting <==> !is_live && !ripe && marks.contains_key(digest@)
            &&& fate is Delete ==> mut_ref_future(budget) == slots - 1
            &&& !(fate is Delete) ==> mut_ref_future(budget) == slots
        }),
{
}

/// Whenever the layers are reconciled with what was collected from the images, no layer that an
/// image has is deleted, nor one that is not listed or not marked. A dry run deletes none, and
/// no run more than its budget.
pub proof fn law_layers_of_images_are_kept(
    images: Vec<Vec<String>>,
    live: Vec<String>,
    paths: Vec<String>,
    prefix: &str,
    present: Vec<String>,
    state: GcState,
    grace_period: Duration,
    budget: &mut usize,
    dry_run: bool,
    plan: LayerPlan,
    i: int,
    j: int,
    k: int,
)
    requires
        call_ensures(collect_referenced_layers, (&images,), live),
        call_ensures(list_layer_digests, (&paths, prefix), present),
        call_ensures(
            reconcile_layers,
            (&live, &present, &state, grace_period, budget, dry_run),
            plan,
        ),
        0 <= i < images@.len(),
        0 <= j < images@[i]@.len(),
        0 <= k < plan.deletes@.len(),
    ensures
        images@[i]@[j]@ != "sha256:"@ + plan.deletes@[k]@,
        images@[i]@[j]@ == plan.deletes@[k]@ ==> "sha256:"@.is_prefix_of(images@[i]@[j]@),
        exists|n: int|
            0 <= n < paths@.len() && (prefix@ + plan.deletes@[k]@.push('/')).is_prefix_of(
                (#[trigger] paths@[n])@,
            ),
        state.dead_layers@.contains_key(plan.deletes@[k]@),
        !dry_run,
        plan.deletes@.len() + mut_ref_future(budget) == mut_ref_current(budget),
{
    let now = choose|now: Instant|
        valid_instant(now) && #[trigger] is_layer_plan(
            texts(live@),
            texts(present@),
            state.dead_layers@,
            grace_period,
            now,
            dry_run,
            mut_ref_current(budget),
            plan,
            mut_ref_future(budget),
        );
    law_no_layer_of_an_image_is_deleted(
        images@,
        texts(live@),
        texts(present@),
        state.dead_layers@,
        grace_period,
        now,
        dry_run,
        mut_ref_current(budget),
        plan,
        mut_ref_future(budget),
    );
    law_only_orphaned_layers_are_deleted(
        texts(live@),
        texts(present@),
        state.dead_layers@,
        grace_period,
        now,
        dry_run,
        mut_ref_current(budget),
        plan,
        mut_ref_future(budget),
    );
    let digest = plan.deletes@[k]@;
    assert(texts(plan.deletes@)[k] == digest);
    assert(texts(plan.deletes@).contains(digest));
    assert(texts(present@).contains(digest));
    let image_digest = images@[i]@[j]@;
    assert(hex_of_digest(image_digest) != digest);
    law_digest_hex(image_digest);
    let n = choose|n: int| has_layer(texts(paths@), prefix@, n, digest);
    law_part_is_in_path(paths@[n]@, prefix@);
    assert(texts(paths@)[n] == paths@[n]@);
}

proof fn lemma_deletes_in_order(
    present: Seq<Seq<char>>,
    live: Seq<Seq<char>>,
    marks: Map<Seq<char>, Seq<char>>,
    grace_period: Duration,
    now: Instant,
    budget: nat,
)
    ensures
        ({
            let d = layers_decided(present, live, marks, grace_period, now, budget, false);
            let doomed = present.filter(
                |digest: Seq<char>|
                    !live.contains(digest) && eligible(marks, digest, now, grace_period),
            );
            &&& d.deletes.len() == if doomed.len() < budget {
                doomed.len()
            } else {
                budget
            }
            &&& d.deletes == doomed.take(d.deletes.len() as int)
        }),
    decreases present.len(),
{
    reveal(Seq::filter);
    let f = |digest: Seq<char>|
        !live.contains(digest) && eligible(marks, digest, now, grace_period);
    let d = layers_decided(present, live, marks, grace_period, now, budget, false);
    if present.len() > 0 {
        let rest = present.drop_last();
        lemma_deletes_in_order(rest, live, marks, grace_period, now, budget);
        let before = layers_decided(rest, live, marks, grace_period, now, budget, false);
        let older = rest.filter(f);
        let doomed = present.filter(f);
        if f(present.last()) {
            assert(doomed == older.push(present.last()));
            if before.deletes.len() < budget {
                assert(older.take(older.len() as int) =~= older);
                assert(doomed.take(doomed.len() as int) =~= doomed);
                assert(d.deletes =~= doomed.take(d.deletes.len() as int));
            } else {
                assert(d.deletes =~= doomed.take(d.deletes.len() as int));
            }
        } else {
            assert(doomed == older);
            assert(d.deletes == before.deletes);
        }
    } else {
        assert(d.deletes =~= present.filter(f).take(0));
    }
}

/// The layers that are deleted are the first ones, in the order in which they are present, of
/// the dead ones that were marked at least the grace period ago: as many as the budget has room
/// for.
pub proof fn law_first_orphans_are_deleted(
    live: Seq<Seq<char>>,
    present: Seq<Seq<char>>,
    marks: Map<Seq<char>, Seq<char>>,
    grace_period: Duration,
    now: Instant,
    budget: usize,
    plan: LayerPlan,
    left: usize,
)
    requires
        is_layer_plan(live, present, marks, grace_period, now, false, budget, plan, left),
    ensures
        ({
            let doomed = present.filter(
                |digest: Seq<char>|
                    {
                        &&& !live.contains(digest)
                        &&& marks.contains_key(digest)
                        &&& instant_of(marks[digest]) matches Some(then)
                        &&& grace_period.secs * 1_000_000_000 + grace_period.nanos
                            <= nanos_between(now, then) || (grace_period.secs == 0
                            && grace_period.nanos == 0)
                    },
            );
            &&& plan.deletes@.len() <= doomed.len()
            &&& texts(plan.deletes@) == doomed.take(plan.deletes@.len() as int)
        }),
{
    lemma_deletes_in_order(present, live, marks, grace_period, now, budget as nat);
    let doomed = |digest: Seq<char>|
        !live.contains(digest) && eligible(marks, digest, now, grace_period);
    let raw = |digest: Seq<char>|
        {
            &&& !live.contains(digest)
            &&& marks.contains_key(digest)
            &&& instant_of(marks[digest]) matches Some(then)
            &&& grace_period.secs * 1_000_000_000 + grace_period.nanos <= nanos_between(now, then)
                || (grace_period.secs == 0 && grace_period.nanos == 0)
        };
    lemma_same_filter(present, doomed, raw);
}

} // verus!
