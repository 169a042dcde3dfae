//! A whole run: every export under one budget, and what the run leaves behind.

use vstd::prelude::*;
use crate::gc::pack_set::PackRef;
use crate::gc::prefix::{
    deleted_keys, garbage, is_decision, is_plan, law_all_garbage_is_collected,
    law_budget_caps_deletes, law_plan_counts, lemma_dead_fit, reconcile_prefix_at, Fetched,
    PrefixListing, PrefixPlan,
};
use crate::gc::report::{sum_of, sums_fit, zero_stats, GcStats, GcTestReport};
use crate::gc::state::{marks_after, pack_key_text, GcState, GcStateDelta};
use crate::time::{rfc3339_of, utc_now, valid_instant, Duration, Instant};

verus! {

/// The sum of the counters of the first parts of a run.
pub open spec fn total_stats(results: Seq<(GcStateDelta, GcStats)>) -> GcStats
    decreases results.len(),
{
    if results.len() == 0 {
        zero_stats()
    } else {
        sum_of(total_stats(results.drop_last()), results.last().1)
    }
}

/// Whether the counters of a part of a run can be added to those before it.
pub open spec fn total_fits(results: Seq<(GcStateDelta, GcStats)>, k: int) -> bool {
    sums_fit(total_stats(results.take(k)), results[k].1)
}

/// Whether the counters of a run fit.
pub open spec fn totals_fit(results: Seq<(GcStateDelta, GcStats)>) -> bool {
    forall|k: int| 0 <= k < results.len() ==> #[trigger] total_fits(results, k)
}

/// The marks of packs after the deltas of a run, one after the other.
pub open spec fn packs_after(
    marks: Map<Seq<char>, Seq<char>>,
    results: Seq<(GcStateDelta, GcStats)>,
) -> Map<Seq<char>, Seq<char>>
    decreases results.len(),
{
    if results.len() == 0 {
        marks
    } else {
        let d = results.last().0@;
        marks_after(
            packs_after(marks, results.drop_last()),
            d.newly_dead_packs,
            d.revived_packs,
            d.deleted_packs,
        )
    }
}

/// The marks of layers after the deltas of a run, one after the other.
pub open spec fn layers_after(
    marks: Map<Seq<char>, Seq<char>>,
    results: Seq<(GcStateDelta, GcStats)>,
) -> Map<Seq<char>, Seq<char>>
    decreases results.len(),
{
    if results.len() == 0 {
        marks
    } else {
        let d = results.last().0@;
        marks_after(
            layers_after(marks, results.drop_last()),
            d.newly_dead_layers,
            d.revived_layers,
            d.deleted_layers,
        )
    }
}

/// Tests whether the counters of a run fit.
pub fn can_merge_results(results: &Vec<(GcStateDelta, GcStats)>) -> (fits: bool)
    ensures
        fits == totals_fit(results@),
{
    let mut stats = GcStats::default();
    let mut i: usize = 0;
    assert(results@.take(0) =~= Seq::empty());
    while i < results.len()
        invariant
            i <= results@.len(),
            stats == total_stats(results@.take(i as int)),
            forall|k: int| 0 <= k < i ==> #[trigger] total_fits(results@, k),
        decreases results@.len() - i,
    {
        let part: GcStats = results[i].1;
        if !stats.can_merge(&part) {
            assert(!total_fits(results@, i as int));
            return false;
        }
        assert(total_fits(results@, i as int));
        stats.merge(part);
        proof {
            let next = results@.take(i + 1);
            assert(next.drop_last() =~= results@.take(i as int));
            assert(next.last() == results@[i as int]);
        }
        i = i + 1;
    }
    true
}

/// Applies what the parts of a run contribute, in their order, and sums up their
/// counters.
pub fn merge_results(state: &mut GcState, results: &Vec<(GcStateDelta, GcStats)>) -> (stats:
    GcStats)
    requires
        old(state).wf(),
        totals_fit(results@),
    ensures
        final(state).wf(),
        stats == total_stats(results@),
        final(state).dead_packs@ == packs_after(old(state).dead_packs@, results@),
        final(state).dead_layers@ == layers_after(old(state).dead_layers@, results@),
{
    let mut stats = GcStats::default();
    let mut i: usize = 0;
    assert(results@.take(0) =~= Seq::empty());
    while i < results.len()
        invariant
            i <= results@.len(),
            state.wf(),
            totals_fit(results@),
            stats == total_stats(results@.take(i as int)),
            state.dead_packs@ == packs_after(old(state).dead_packs@, results@.take(i as int)),
            state.dead_layers@ == layers_after(old(state).dead_layers@, results@.take(i as int)),
        decreases results@.len() - i,
    {
        proof {
            let next = results@.take(i + 1);
            assert(next.drop_last() =~= results@.take(i as int));
            assert(next.last() == results@[i as int]);
            assert(total_fits(results@, i as int));
        }
        state.apply_delta(&results[i].0);
        stats.merge(results[i].1);
        i = i + 1;
    }
    assert(results@.take(i as int) =~= results@);
    stats
}

/// Whether `plans` are what the reconciliations of several exports come to, one
/// after the other, where `budgets` holds the budget before each and at the end.
pub open spec fn are_plans(
    listings: Seq<PrefixListing>,
    marks: Map<Seq<char>, Seq<char>>,
    grace_period: Duration,
    now: Instant,
    plans: Seq<PrefixPlan>,
    budgets: Seq<usize>,
) -> bool {
    &&& plans.len() == listings.len()
    &&& budgets.len() == listings.len() + 1
    &&& forall|k: int|
        0 <= k < listings.len() ==> is_plan(
            #[trigger] listings[k],
            marks,
            grace_period,
            now,
            budgets[k],
            plans[k],
            budgets[k + 1],
        )
}

/// Reconciles every export at `now`, sharing one budget of deletes across all of
/// them. The marks are those from before the run for each of them.
pub fn reconcile_prefixes_at(
    listings: &Vec<PrefixListing>,
    state: &GcState,
    grace_period: Duration,
    budget: &mut usize,
    now: Instant,
) -> (plans: Vec<PrefixPlan>)
    requires
        state.wf(),
        valid_instant(now),
    ensures
        exists|budgets: Seq<usize>|
            {
                &&& #[trigger] are_plans(
                    listings@,
                    state.dead_packs@,
                    grace_period,
                    now,
                    plans@,
                    budgets,
                )
                &&& budgets[0] == *old(budget)
                &&& budgets.last() == *final(budget)
            },
{
    let mut plans: Vec<PrefixPlan> = Vec::new();
    let ghost mut budgets: Seq<usize> = seq![*budget];
    let mut i: usize = 0;
    assert(listings@.take(0) =~= Seq::empty());
    while i < listings.len()
        invariant
            i <= listings@.len(),
            state.wf(),
            valid_instant(now),
            are_plans(
                listings@.take(i as int),
                state.dead_packs@,
                grace_period,
                now,
                plans@,
                budgets,
            ),
            budgets[0] == *old(budget),
            budgets.last() == *budget,
        decreases listings@.len() - i,
    {
        let ghost before = budgets;
        let ghost before_plans = plans@;
        let plan: PrefixPlan = reconcile_prefix_at(&listings[i], state, grace_period, budget, now);
        plans.push(plan);
        proof {
            budgets = budgets.push(*budget);
            let upto = listings@.take(i + 1);
            assert forall|k: int| 0 <= k < upto.len() implies is_plan(
                #[trigger] upto[k],
                state.dead_packs@,
                grace_period,
                now,
                budgets[k],
                plans@[k],
                budgets[k + 1],
            ) by {
                if k < i {
                    assert(upto[k] == listings@.take(i as int)[k]);
                    assert(plans@[k] == before_plans[k]);
                    assert(budgets[k] == before[k] && budgets[k + 1] == before[k + 1]);
                }
            }
        }
        i = i + 1;
    }
    assert(listings@.take(i as int) =~= listings@);
    plans
}

/// How many packs the first parts of a run delete.
pub open spec fn deletes_of(plans: Seq<PrefixPlan>) -> nat
    decreases plans.len(),
{
    if plans.len() == 0 {
        0
    } else {
        deletes_of(plans.drop_last()) + plans.last().deletes@.len()
    }
}

/// The budget caps a whole run: over all exports together, no more packs are
/// deleted than the budget allows, and what is left of it is what they have not
/// used.
pub proof fn law_shared_budget_caps_total(
    listings: Seq<PrefixListing>,
    marks: Map<Seq<char>, Seq<char>>,
    grace_period: Duration,
    now: Instant,
    plans: Seq<PrefixPlan>,
    budgets: Seq<usize>,
)
    requires
        are_plans(listings, marks, grace_period, now, plans, budgets),
        forall|k: int|
            0 <= k < listings.len() ==> (#[trigger] listings[k]).checked(marks).left.len()
                <= usize::MAX,
    ensures
        deletes_of(plans) + budgets.last() == budgets[0],
    decreases listings.len(),
{
    if listings.len() > 0 {
        let n = listings.len() - 1;
        let rest = listings.drop_last();
        assert forall|k: int| 0 <= k < rest.len() implies is_plan(
            #[trigger] rest[k],
            marks,
            grace_period,
            now,
            budgets.drop_last()[k],
            plans.drop_last()[k],
            budgets.drop_last()[k + 1],
        ) by {
            assert(rest[k] == listings[k]);
        }
        assert forall|k: int| 0 <= k < rest.len() implies (#[trigger] rest[k]).checked(
            marks,
        ).left.len() <= usize::MAX by {
            assert(rest[k] == listings[k]);
        }
        law_shared_budget_caps_total(
            rest,
            marks,
            grace_period,
            now,
            plans.drop_last(),
            budgets.drop_last(),
        );
        assert(is_plan(
            listings[n],
            marks,
            grace_period,
            now,
            budgets[n],
            plans[n],
            budgets[n + 1],
        ));
        law_budget_caps_deletes(
            listings[n],
            marks,
            grace_period,
            now,
            budgets[n],
            plans[n],
            budgets[n + 1],
        );
    }
}

/// The keys of packs.
pub open spec fn keys_of(packs: Seq<PackRef>) -> Seq<Seq<char>> {
    packs.map_values(|p: PackRef| pack_key_text(p.0, p.1))
}

/// Run GC reconciliation on a single export, as if every delete succeeded, and
/// apply what comes of it. Hands back the packs to delete, too: none in a dry run.
/// Exposed for testing.
pub fn reconcile_prefix_for_test(
    listing: &PrefixListing,
    state: &mut GcState,
    grace_period: Duration,
    max_deletes: usize,
    dry_run: bool,
) -> (done: (GcTestReport, Vec<PackRef>))
    requires
        old(state).wf(),
    ensures
        final(state).wf(),
        final(state).dead_layers@ == old(state).dead_layers@,
        exists|now: Instant, plan: PrefixPlan, left: usize|
            {
                &&& valid_instant(now)
                &&& #[trigger] is_plan(
                    *listing,
                    old(state).dead_packs@,
                    grace_period,
                    now,
                    max_deletes,
                    plan,
                    left,
                )
                &&& done.1@ == plan.spec_packs_to_delete(dry_run)
                &&& done.0.stats == if plan.decided {
                    (GcStats {
                        prefixes_scanned: 1,
                        packs_deleted: plan.deletes@.len() as usize,
                        ..plan.stats
                    })
                } else {
                    plan.stats
                }
                &&& final(state).dead_packs@ == marks_after(
                    old(state).dead_packs@,
                    plan.delta@.newly_dead_packs,
                    plan.delta@.revived_packs,
                    keys_of(plan.spec_packs_to_delete(dry_run)),
                )
            },
{
    let now: Instant = utc_now();
    let mut budget: usize = max_deletes;
    let plan: PrefixPlan = reconcile_prefix_at(listing, state, grace_period, &mut budget, now);
    let deletes: Vec<PackRef> = plan.packs_to_delete(dry_run);
    let mut results: Vec<(PackRef, bool)> = Vec::new();
    let mut i: usize = 0;
    assert(deleted_keys(results@) =~= keys_of(deletes@.take(0)));
    while i < deletes.len()
        invariant
            i <= deletes@.len(),
            deleted_keys(results@) == keys_of(deletes@.take(i as int)),
        decreases deletes@.len() - i,
    {
        let ghost before = results@;
        results.push((deletes[i], true));
        proof {
            assert(results@.drop_last() =~= before);
            assert(deleted_keys(results@) =~= keys_of(deletes@.take(i + 1)));
        }
        i = i + 1;
    }
    assert(deletes@.take(i as int) =~= deletes@);
    let ghost planned = plan;
    proof {
        if plan.decided {
            let order = choose|order: Seq<PackRef>|
                is_decision(
                    *listing,
                    old(state).dead_packs@,
                    grace_period,
                    now,
                    max_deletes,
                    plan,
                    budget,
                    order,
                );
            assert(is_decision(
                *listing,
                old(state).dead_packs@,
                grace_period,
                now,
                max_deletes,
                plan,
                budget,
                order,
            ));
        }
    }
    let (delta, stats) = plan.finish(dry_run, &results);
    state.apply_delta(&delta);
    proof {
        assert(is_plan(
            *listing,
            old(state).dead_packs@,
            grace_period,
            now,
            max_deletes,
            planned,
            budget,
        ));
        assert(delta@.newly_dead_layers.len() == 0 && delta@.revived_layers.len() == 0
            && delta@.deleted_layers.len() == 0);
        assert(state.dead_layers@ =~= old(state).dead_layers@);
        if !planned.decided || dry_run {
            assert(delta@.deleted_packs =~= Seq::empty());
            assert(keys_of(deletes@) =~= Seq::empty());
        }
    }
    (GcTestReport { stats }, deletes)
}

/// The counters of a run are those of its first part and those of the rest, added
/// up, wherever it is parted; those of a part alone are its own.
pub proof fn law_totals_add_up(
    a: Seq<(GcStateDelta, GcStats)>,
    b: Seq<(GcStateDelta, GcStats)>,
)
    requires
        totals_fit(a + b),
    ensures
        ({
            let sum = total_stats(a + b);
            let x = total_stats(a);
            let y = total_stats(b);
            &&& sum.prefixes_scanned == x.prefixes_scanned + y.prefixes_scanned
            &&& sum.manifests_scanned == x.manifests_scanned + y.manifests_scanned
            &&& sum.manifest_errors == x.manifest_errors + y.manifest_errors
            &&& sum.live_packs == x.live_packs + y.live_packs
            &&& sum.known_packs == x.known_packs + y.known_packs
            &&& sum.dead_found == x.dead_found + y.dead_found
            &&& sum.eligible_for_deletion == x.eligible_for_deletion + y.eligible_for_deletion
            &&& sum.packs_deleted == x.packs_deleted + y.packs_deleted
            &&& sum.snapshots_checked == x.snapshots_checked + y.snapshots_checked
            &&& sum.live_layers == x.live_layers + y.live_layers
            &&& sum.dead_layers_found == x.dead_layers_found + y.dead_layers_found
            &&& sum.eligible_layers == x.eligible_layers + y.eligible_layers
            &&& sum.layers_deleted == x.layers_deleted + y.layers_deleted
        }),
        b.len() == 1 ==> total_stats(b) == b[0].1,
    decreases b.len(),
{
    if b.len() == 0 {
        assert(a + b =~= a);
    } else {
        let rest = b.drop_last();
        let all = a + b;
        let n = all.len() - 1;
        assert(all.drop_last() =~= a + rest);
        assert forall|k: int| 0 <= k < (a + rest).len() implies #[trigger] total_fits(
            a + rest,
            k,
        ) by {
            assert((a + rest).take(k) =~= all.take(k));
            assert((a + rest)[k] == all[k]);
            assert(total_fits(all, k));
        }
        law_totals_add_up(a, rest);
        assert(total_fits(all, n));
        assert(all.take(n) =~= a + rest);
        assert(all.last() == b.last());
        if b.len() == 1 {
            assert(rest =~= Seq::empty());
            assert(total_stats(rest) == zero_stats());
        }
    }
}

/// The marks after a run are those after its last part applied to those after the
/// parts before it, wherever the run is parted: no part is left out, and none is
/// applied twice.
pub proof fn law_parts_follow_each_other(
    marks: Map<Seq<char>, Seq<char>>,
    a: Seq<(GcStateDelta, GcStats)>,
    b: Seq<(GcStateDelta, GcStats)>,
)
    ensures
        packs_after(marks, a + b) == packs_after(packs_after(marks, a), b),
        layers_after(marks, a + b) == layers_after(layers_after(marks, a), b),
        b.len() == 1 ==> packs_after(marks, b) == marks_after(
            marks,
            b[0].0@.newly_dead_packs,
            b[0].0@.revived_packs,
            b[0].0@.deleted_packs,
        ),
        b.len() == 1 ==> layers_after(marks, b) == marks_after(
            marks,
            b[0].0@.newly_dead_layers,
            b[0].0@.revived_layers,
            b[0].0@.deleted_layers,
        ),
    decreases b.len(),
{
    if b.len() == 0 {
        assert(a + b =~= a);
    } else {
        let rest = b.drop_last();
        assert((a + b).drop_last() =~= a + rest);
        assert((a + b).last() == b.last());
        law_parts_follow_each_other(marks, a, rest);
        if b.len() == 1 {
            assert(rest =~= Seq::empty());
            assert(packs_after(marks, rest) == marks);
            assert(layers_after(marks, rest) == marks);
        }
    }
}

/// What a run deletes is what its parts delete.
pub proof fn law_deletes_add_up(a: Seq<PrefixPlan>, b: Seq<PrefixPlan>)
    ensures
        deletes_of(a + b) == deletes_of(a) + deletes_of(b),
        b.len() == 1 ==> deletes_of(b) == b[0].deletes@.len(),
    decreases b.len(),
{
    if b.len() == 0 {
        assert(a + b =~= a);
    } else {
        let rest = b.drop_last();
        assert((a + b).drop_last() =~= a + rest);
        assert((a + b).last() == b.last());
        law_deletes_add_up(a, rest);
        if b.len() == 1 {
            assert(rest =~= Seq::empty());
            assert(deletes_of(rest) == 0);
        }
    }
}

/// Over a whole run, no export loses a pack that one of its manifests or snapshots
/// lists, all garbage of every export that is not marked yet is marked, and no more
/// packs are deleted than the budget has room for.
pub proof fn law_run_keeps_listed_packs(
    listings: Vec<PrefixListing>,
    state: GcState,
    grace_period: Duration,
    budget: &mut usize,
    now: Instant,
    plans: Vec<PrefixPlan>,
)
    requires
        call_ensures(
            reconcile_prefixes_at,
            (&listings, &state, grace_period, budget, now),
            plans,
        ),
    ensures
        plans@.len() == listings@.len(),
        forall|e: int, k: int, p: PackRef|
            #![trigger listings@[e].manifests@[k], plans@[e].deletes@.contains(p)]
            0 <= e < listings@.len() && 0 <= k < listings@[e].manifests@.len() && (
            listings@[e].manifests@[k] matches Fetched::Packs(packs) && packs@.contains(p))
                ==> !plans@[e].deletes@.contains(p),
        forall|e: int, k: int, p: PackRef|
            #![trigger listings@[e].snapshots@[k], plans@[e].deletes@.contains(p)]
            0 <= e < listings@.len() && 0 <= k < listings@[e].snapshots@.len() && (
            listings@[e].snapshots@[k] matches Fetched::Packs(packs) && packs@.contains(p))
                ==> !plans@[e].deletes@.contains(p),
        forall|e: int, p: PackRef|
            0 <= e < listings@.len() && #[trigger] garbage(listings@[e], p)
                && !state.dead_packs@.contains_key(pack_key_text(p.0, p.1))
                ==> plans@[e].delta@.newly_dead_packs.contains(
                (pack_key_text(p.0, p.1), rfc3339_of(now.0, now.1)),
            ),
        deletes_of(plans@) + mut_ref_future(budget) == mut_ref_current(budget),
{
    let marks = state.dead_packs@;
    let budgets = choose|budgets: Seq<usize>|
        {
            &&& #[trigger] are_plans(listings@, marks, grace_period, now, plans@, budgets)
            &&& budgets[0] == mut_ref_current(budget)
            &&& budgets.last() == mut_ref_future(budget)
        };
    assert(are_plans(listings@, marks, grace_period, now, plans@, budgets));
    assert forall|e: int, p: PackRef| 0 <= e < listings@.len() implies (
    #[trigger] plans@[e].deletes@.contains(p) ==> garbage(listings@[e], p)) && (garbage(
        listings@[e],
        p,
    ) && !marks.contains_key(pack_key_text(p.0, p.1))
        ==> plans@[e].delta@.newly_dead_packs.contains(
        (pack_key_text(p.0, p.1), rfc3339_of(now.0, now.1)),
    )) by {
        law_all_garbage_is_collected(
            listings@[e],
            marks,
            grace_period,
            now,
            budgets[e],
            plans@[e],
            budgets[e + 1],
            p,
        );
    }
    assert forall|e: int, p: PackRef|
        0 <= e < listings@.len() && #[trigger] garbage(listings@[e], p)
            && !state.dead_packs@.contains_key(
            pack_key_text(p.0, p.1),
        ) implies plans@[e].delta@.newly_dead_packs.contains(
        (pack_key_text(p.0, p.1), rfc3339_of(now.0, now.1)),
    ) by {
        let deleted = plans@[e].deletes@.contains(p);
    }
    assert forall|k: int| 0 <= k < listings@.len() implies (#[trigger] listings@[k]).checked(
        marks,
    ).left.len() <= usize::MAX by {
        assert(is_plan(
            listings@[k],
            marks,
            grace_period,
            now,
            budgets[k],
            plans@[k],
            budgets[k + 1],
        ));
        lemma_dead_fit(listings@[k], marks);
    }
    law_shared_budget_caps_total(listings@, marks, grace_period, now, plans@, budgets);
}

/// A run on one export deletes no pack that a manifest or a snapshot lists, and no more than it
/// may. A dry run deletes none. What is deleted has no mark afterwards, and layers keep theirs.
pub proof fn law_run_on_one_export(
    listing: PrefixListing,
    state: &mut GcState,
    grace_period: Duration,
    max_deletes: usize,
    dry_run: bool,
    done: (GcTestReport, Vec<PackRef>),
    k: int,
    p: PackRef,
)
    requires
        call_ensures(
            reconcile_prefix_for_test,
            (&listing, state, grace_period, max_deletes, dry_run),
            done,
        ),
    ensures
        done.1@.len() <= max_deletes,
        dry_run ==> done.1@.len() == 0,
        done.1@.contains(p) ==> garbage(listing, p),
        done.1@.contains(p) && 0 <= k < listing.manifests@.len() ==> !(
        listing.manifests@[k] is Packs && listing.manifests@[k]->Packs_0@.contains(p)) && !(
        listing.manifests@[k] is Failed),
        done.1@.contains(p) && 0 <= k < listing.snapshots@.len() ==> !(
        listing.snapshots@[k] is Packs && listing.snapshots@[k]->Packs_0@.contains(p)),
        done.1@.contains(p) ==> !mut_ref_future(state).dead_packs@.contains_key(
            pack_key_text(p.0, p.1),
        ),
        mut_ref_future(state).dead_layers@ == mut_ref_current(state).dead_layers@,
        !dry_run ==> done.0.stats.packs_deleted == done.1@.len(),
{
    let marks = mut_ref_current(state).dead_packs@;
    let (now, plan, left) = choose|now: Instant, plan: PrefixPlan, left: usize|
        {
            &&& valid_instant(now)
            &&& #[trigger] is_plan(listing, marks, grace_period, now, max_deletes, plan, left)
            &&& done.1@ == plan.spec_packs_to_delete(dry_run)
            &&& done.0.stats == if plan.decided {
                (GcStats {
                    prefixes_scanned: 1,
                    packs_deleted: plan.deletes@.len() as usize,
                    ..plan.stats
                })
            } else {
                plan.stats
            }
            &&& mut_ref_future(state).dead_packs@ == marks_after(
                marks,
                plan.delta@.newly_dead_packs,
                plan.delta@.revived_packs,
                keys_of(plan.spec_packs_to_delete(dry_run)),
            )
        };
    lemma_dead_fit(listing, marks);
    law_budget_caps_deletes(listing, marks, grace_period, now, max_deletes, plan, left);
    law_all_garbage_is_collected(
        listing,
        marks,
        grace_period,
        now,
        max_deletes,
        plan,
        left,
        p,
    );
    assert(plan.deletes.len() <= usize::MAX);
    law_plan_counts(listing, marks, grace_period, now, max_deletes, plan, left);
    if done.1@.contains(p) {
        let keys = keys_of(done.1@);
        let i = choose|i: int| 0 <= i < done.1@.len() && done.1@[i] == p;
        assert(keys[i] == pack_key_text(p.0, p.1));
        assert(keys.to_set().contains(pack_key_text(p.0, p.1)));
    }
}

/// Merging the parts of a run adds up their counters and applies their marks, part after part.
pub proof fn law_parts_are_merged(
    state: &mut GcState,
    results: Vec<(GcStateDelta, GcStats)>,
    stats: GcStats,
)
    requires
        call_ensures(merge_results, (state, &results), stats),
        totals_fit(results@),
        results@.len() == 2,
    ensures
        stats.packs_deleted == results@[0].1.packs_deleted + results@[1].1.packs_deleted,
        stats.manifest_errors == results@[0].1.manifest_errors + results@[1].1.manifest_errors,
        stats.dead_found == results@[0].1.dead_found + results@[1].1.dead_found,
        stats.layers_deleted == results@[0].1.layers_deleted + results@[1].1.layers_deleted,
        forall|key: Seq<char>|
            results@[1].0@.deleted_packs.contains(key) || results@[1].0@.revived_packs.contains(key)
                ==> !#[trigger] mut_ref_future(state).dead_packs@.contains_key(key),
{
    let a = seq![results@[0]];
    let b = seq![results@[1]];
    assert(results@ =~= a + b);
    law_totals_add_up(a, b);
    assert(totals_fit(Seq::<(GcStateDelta, GcStats)>::empty() + a)) by {
        let one = Seq::<(GcStateDelta, GcStats)>::empty() + a;
        assert forall|k: int| 0 <= k < one.len() implies #[trigger] total_fits(one, k) by {
            assert(one.take(k) =~= results@.take(k));
            assert(one[k] == results@[k]);
            assert(total_fits(results@, k));
        }
    }
    law_totals_add_up(Seq::empty(), a);
    law_parts_follow_each_other(mut_ref_current(state).dead_packs@, a, b);
    let mid = packs_after(mut_ref_current(state).dead_packs@, a);
    law_parts_follow_each_other(mid, Seq::empty(), b);
}

/// The counters of a run fit exactly if those of all parts but the last do, and the last can be
/// added to them. Those of no part fit.
pub proof fn law_totals_fit(results: Vec<(GcStateDelta, GcStats)>, fits: bool)
    requires
        call_ensures(can_merge_results, (&results,), fits),
    ensures
        results@.len() == 0 ==> fits,
        results@.len() == 1 ==> fits,
        results@.len() > 0 ==> (fits <==> totals_fit(results@.drop_last()) && sums_fit(
            total_stats(results@.drop_last()),
            results@.last().1,
        )),
{
    let all = results@;
    if all.len() > 0 {
        let rest = all.drop_last();
        let n = all.len() - 1;
        assert(all.take(n) =~= rest);
        assert forall|k: int| 0 <= k < n implies #[trigger] total_fits(rest, k) == total_fits(all, k) by {
            assert(rest.take(k) =~= all.take(k));
        }
        assert forall|k: int| 0 <= k < n implies #[trigger] total_fits(all, k) == total_fits(rest, k) by {
            assert(rest.take(k) =~= all.take(k));
        }
        assert(total_fits(all, n) == sums_fit(total_stats(rest), all.last().1));
        if fits {
            assert(total_fits(all, n));
        } else {
            let k = choose|k: int| 0 <= k < all.len() && !#[trigger] total_fits(all, k);
            if k < n {
                assert(!total_fits(rest, k));
            }
        }
        if all.len() == 1 {
            assert(rest =~= Seq::empty());
            assert(total_stats(rest) == zero_stats());
        }
    }
}

} // verus!
