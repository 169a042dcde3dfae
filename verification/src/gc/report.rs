//! Counters of a run.

use vstd::prelude::*;

verus! {

/// Counters of a run, or of a part of one.
#[derive(Debug, Clone, Copy, PartialEq, Eq, Structural)]
pub struct GcStats {
    pub prefixes_scanned: usize,
    pub manifests_scanned: usize,
    pub manifest_errors: usize,
    pub live_packs: usize,
    pub known_packs: usize,
    pub dead_found: usize,
    pub eligible_for_deletion: usize,
    pub packs_deleted: usize,
    pub snapshots_checked: usize,
    // Shared-layer pool (layered OCI bless).
    pub live_layers: usize,
    pub dead_layers_found: usize,
    pub eligible_layers: usize,
    pub layers_deleted: usize,
}

/// Counters at zero.
pub open spec fn zero_stats() -> GcStats {
    GcStats {
        prefixes_scanned: 0,
        manifests_scanned: 0,
        manifest_errors: 0,
        live_packs: 0,
        known_packs: 0,
        dead_found: 0,
        eligible_for_deletion: 0,
        packs_deleted: 0,
        snapshots_checked: 0,
        live_layers: 0,
        dead_layers_found: 0,
        eligible_layers: 0,
        layers_deleted: 0,
    }
}

impl Default for GcStats {
    fn default() -> (stats: Self)
        ensures
            stats == zero_stats(),
    {
        GcStats {
            prefixes_scanned: 0,
            manifests_scanned: 0,
            manifest_errors: 0,
            live_packs: 0,
            known_packs: 0,
            dead_found: 0,
            eligible_for_deletion: 0,
            packs_deleted: 0,
            snapshots_checked: 0,
            live_layers: 0,
            dead_layers_found: 0,
            eligible_layers: 0,
            layers_deleted: 0,
        }
    }
}

/// Whether the sums of two sets of counters fit.
pub open spec fn sums_fit(a: GcStats, b: GcStats) -> bool {
    &&& a.prefixes_scanned + b.prefixes_scanned <= usize::MAX
    &&& a.manifests_scanned + b.manifests_scanned <= usize::MAX
    &&& a.manifest_errors + b.manifest_errors <= usize::MAX
    &&& a.live_packs + b.live_packs <= usize::MAX
    &&& a.known_packs + b.known_packs <= usize::MAX
    &&& a.dead_found + b.dead_found <= usize::MAX
    &&& a.eligible_for_deletion + b.eligible_for_deletion <= usize::MAX
    &&& a.packs_deleted + b.packs_deleted <= usize::MAX
    &&& a.snapshots_checked + b.snapshots_checked <= usize::MAX
    &&& a.live_layers + b.live_layers <= usize::MAX
    &&& a.dead_layers_found + b.dead_layers_found <= usize::MAX
    &&& a.eligible_layers + b.eligible_layers <= usize::MAX
    &&& a.layers_deleted + b.layers_deleted <= usize::MAX
}

/// The sum of two sets of counters, counter by counter.
pub open spec fn sum_of(a: GcStats, b: GcStats) -> GcStats {
    GcStats {
        prefixes_scanned: (a.prefixes_scanned + b.prefixes_scanned) as usize,
        manifests_scanned: (a.manifests_scanned + b.manifests_scanned) as usize,
        manifest_errors: (a.manifest_errors + b.manifest_errors) as usize,
        live_packs: (a.live_packs + b.live_packs) as usize,
        known_packs: (a.known_packs + b.known_packs) as usize,
        dead_found: (a.dead_found + b.dead_found) as usize,
        eligible_for_deletion: (a.eligible_for_deletion + b.eligible_for_deletion) as usize,
        packs_deleted: (a.packs_deleted + b.packs_deleted) as usize,
        snapshots_checked: (a.snapshots_checked + b.snapshots_checked) as usize,
        live_layers: (a.live_layers + b.live_layers) as usize,
        dead_layers_found: (a.dead_layers_found + b.dead_layers_found) as usize,
        eligible_layers: (a.eligible_layers + b.eligible_layers) as usize,
        layers_deleted: (a.layers_deleted + b.layers_deleted) as usize,
    }
}

impl GcStats {
    /// Adds the counters of another part.
    pub fn merge(&mut self, other: GcStats)
        requires
            sums_fit(*old(self), other),
        ensures
            *final(self) == sum_of(*old(self), other),
    {
        self.prefixes_scanned = self.prefixes_scanned + other.prefixes_scanned;
        self.manifests_scanned = self.manifests_scanned + other.manifests_scanned;
        self.manifest_errors = self.manifest_errors + other.manifest_errors;
        self.live_packs = self.live_packs + other.live_packs;
        self.known_packs = self.known_packs + other.known_packs;
        self.dead_found = self.dead_found + other.dead_found;
        self.eligible_for_deletion = self.eligible_for_deletion + other.eligible_for_deletion;
        self.packs_deleted = self.packs_deleted + other.packs_deleted;
        self.snapshots_checked = self.snapshots_checked + other.snapshots_checked;
        self.live_layers = self.live_layers + other.live_layers;
        self.dead_layers_found = self.dead_layers_found + other.dead_layers_found;
        self.eligible_layers = self.eligible_layers + other.eligible_layers;
        self.layers_deleted = self.layers_deleted + other.layers_deleted;
    }

    /// Tests whether `merge` can add the counters of another part.
    pub fn can_merge(&self, other: &GcStats) -> (fits: bool)
        ensures
            fits == sums_fit(*self, *other),
    {
        self.prefixes_scanned.checked_add(other.prefixes_scanned).is_some()
            && self.manifests_scanned.checked_add(other.manifests_scanned).is_some()
            && self.manifest_errors.checked_add(other.manifest_errors).is_some()
            && self.live_packs.checked_add(other.live_packs).is_some()
            && self.known_packs.checked_add(other.known_packs).is_some()
            && self.dead_found.checked_add(other.dead_found).is_some()
            && self.eligible_for_deletion.checked_add(other.eligible_for_deletion).is_some()
            && self.packs_deleted.checked_add(other.packs_deleted).is_some()
            && self.snapshots_checked.checked_add(other.snapshots_checked).is_some()
            && self.live_layers.checked_add(other.live_layers).is_some()
            && self.dead_layers_found.checked_add(other.dead_layers_found).is_some()
            && self.eligible_layers.checked_add(other.eligible_layers).is_some()
            && self.layers_deleted.checked_add(other.layers_deleted).is_some()
    }
}

/// Test report from reconciliation.
#[derive(Debug)]
pub struct GcTestReport {
    pub stats: GcStats,
}

impl GcTestReport {
    pub fn manifests_scanned(&self) -> (n: usize)
        ensures
            n == self.stats.manifests_scanned,
    {
        self.stats.manifests_scanned
    }

    pub fn manifest_errors(&self) -> (n: usize)
        ensures
            n == self.stats.manifest_errors,
    {
        self.stats.manifest_errors
    }

    pub fn live_packs(&self) -> (n: usize)
        ensures
            n == self.stats.live_packs,
    {
        self.stats.live_packs
    }

    pub fn known_packs(&self) -> (n: usize)
        ensures
            n == self.stats.known_packs,
    {
        self.stats.known_packs
    }

    pub fn dead_found(&self) -> (n: usize)
        ensures
            n == self.stats.dead_found,
    {
        self.stats.dead_found
    }

    pub fn eligible_for_deletion(&self) -> (n: usize)
        ensures
            n == self.stats.eligible_for_deletion,
    {
        self.stats.eligible_for_deletion
    }

    pub fn packs_deleted(&self) -> (n: usize)
        ensures
            n == self.stats.packs_deleted,
    {
        self.stats.packs_deleted
    }

    pub fn deleted_count(&self) -> (n: usize)
        ensures
            n == self.stats.packs_deleted,
    {
        self.stats.packs_deleted
    }
}

/// Every counter of a sum is the sum of the counters.
pub proof fn law_counters_add_up(stats: &mut GcStats, other: GcStats)
    requires
        call_ensures(GcStats::merge, (stats, other), ()),
        sums_fit(mut_ref_current(stats), other),
    ensures
        ({
            let a = mut_ref_current(stats);
            let sum = mut_ref_future(stats);
            &&& sum.prefixes_scanned == a.prefixes_scanned + other.prefixes_scanned
            &&& sum.manifests_scanned == a.manifests_scanned + other.manifests_scanned
            &&& sum.manifest_errors == a.manifest_errors + other.manifest_errors
            &&& sum.live_packs == a.live_packs + other.live_packs
            &&& sum.known_packs == a.known_packs + other.known_packs
            &&& sum.dead_found == a.dead_found + other.dead_found
            &&& sum.eligible_for_deletion == a.eligible_for_deletion + other.eligible_for_deletion
            &&& sum.packs_deleted == a.packs_deleted + other.packs_deleted
            &&& sum.snapshots_checked == a.snapshots_checked + other.snapshots_checked
            &&& sum.live_layers == a.live_layers + other.live_layers
            &&& sum.dead_layers_found == a.dead_layers_found + other.dead_layers_found
            &&& sum.eligible_layers == a.eligible_layers + other.eligible_layers
            &&& sum.layers_deleted == a.layers_deleted + other.layers_deleted
        }),
{
}

/// Counters can be added exactly if every sum fits.
pub proof fn law_counters_fit(a: GcStats, b: GcStats, fits: bool)
    requires
        call_ensures(GcStats::can_merge, (&a, &b), fits),
    ensures
        fits <==> {
            &&& a.prefixes_scanned + b.prefixes_scanned <= usize::MAX
            &&& a.manifests_scanned + b.manifests_scanned <= usize::MAX
            &&& a.manifest_errors + b.manifest_errors <= usize::MAX
            &&& a.live_packs + b.live_packs <= usize::MAX
            &&& a.known_packs + b.known_packs <= usize::MAX
            &&& a.dead_found + b.dead_found <= usize::MAX
            &&& a.eligible_for_deletion + b.eligible_for_deletion <= usize::MAX
            &&& a.packs_deleted + b.packs_deleted <= usize::MAX
            &&& a.snapshots_checked + b.snapshots_checked <= usize::MAX
            &&& a.live_layers + b.live_layers <= usize::MAX
            &&& a.dead_layers_found + b.dead_layers_found <= usize::MAX
            &&& a.eligible_layers + b.eligible_layers <= usize::MAX
            &&& a.layers_deleted + b.layers_deleted <= usize::MAX
        },
{
}

/// A report shows the counters of its run, each under its name.
pub proof fn law_report_shows_counters(
    report: GcTestReport,
    scanned: usize,
    errors: usize,
    live: usize,
    known: usize,
    dead: usize,
    eligible: usize,
    deleted: usize,
    count: usize,
)
    requires
        call_ensures(GcTestReport::manifests_scanned, (&report,), scanned),
        call_ensures(GcTestReport::manifest_errors, (&report,), errors),
        call_ensures(GcTestReport::live_packs, (&report,), live),
        call_ensures(GcTestReport::known_packs, (&report,), known),
        call_ensures(GcTestReport::dead_found, (&report,), dead),
        call_ensures(GcTestReport::eligible_for_deletion, (&report,), eligible),
        call_ensures(GcTestReport::packs_deleted, (&report,), deleted),
        call_ensures(GcTestReport::deleted_count, (&report,), count),
    ensures
        report.stats.manifests_scanned == scanned,
        report.stats.manifest_errors == errors,
        report.stats.live_packs == live,
        report.stats.known_packs == known,
        report.stats.dead_found == dead,
        report.stats.eligible_for_deletion == eligible,
        report.stats.packs_deleted == deleted,
        count == deleted,
{
}

} // verus!
