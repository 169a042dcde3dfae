use chrono::{Duration as Span, Utc};
use glidefs::gc::discover::{DiscoverNext, Discovery};
use glidefs::gc::layers::{
    collect_referenced_layers, layer_fate, list_layer_digests, reconcile_layers, LayerFate,
};
use glidefs::gc::listing::{
    digest_hex, invalid_suffix_message, is_duration_in_range, layer_prefix, layers_prefix,
    manifest_name, parse_duration, parse_pack_path, DurationError,
};
use glidefs::gc::orchestrate::{
    can_merge_results, merge_results, reconcile_prefix_for_test, reconcile_prefixes_at,
};
use glidefs::gc::pack_set::{PackRef, PackSet};
use glidefs::gc::prefix::{
    list_all_packs, reconcile_prefix, reconcile_prefix_at, try_claim_delete_slot, Fetched,
    PrefixListing, PrefixScan,
};
use glidefs::gc::report::GcStats;
use glidefs::gc::state::{
    inject_dead_pack_for_test, new_gc_state_for_test, pack_key, GcState, GcStateDelta,
};
use glidefs::time::{is_valid_instant, Duration, Instant};

const CHUNKS: &str = "test/exports/vm1/chunks/";

fn hours_ago(hours: i64) -> Instant {
    let t = Utc::now() - Span::hours(hours);
    (t.timestamp(), t.timestamp_subsec_nanos())
}

fn path_of(p: PackRef) -> String {
    format!("{CHUNKS}{:04}/{:016x}.pack", p.0, p.1)
}

fn listing(manifests: Vec<Fetched>, packs: &[PackRef], snapshots: Vec<Fetched>) -> PrefixListing {
    PrefixListing {
        chunks_prefix: CHUNKS.to_string(),
        manifests,
        paths: packs.iter().map(|&p| path_of(p)).collect(),
        snapshots,
    }
}

fn text(s: &str) -> String {
    s.to_string()
}

#[test]
fn test_parse_duration_hours() {
    assert_eq!(parse_duration("24h").unwrap(), Duration::from_secs(86400));
    assert_eq!(parse_duration("1h").unwrap(), Duration::from_secs(3600));
}

#[test]
fn test_parse_duration_minutes() {
    assert_eq!(parse_duration("30m").unwrap(), Duration::from_secs(1800));
}

#[test]
fn test_parse_duration_days() {
    assert_eq!(parse_duration("7d").unwrap(), Duration::from_secs(604800));
}

#[test]
fn test_parse_duration_seconds() {
    assert_eq!(parse_duration("60s").unwrap(), Duration::from_secs(60));
}

#[test]
fn test_parse_duration_invalid() {
    assert!(parse_duration("24").is_err());
    assert!(parse_duration("abc").is_err());
}

#[test]
fn durations_at_their_edges() {
    assert_eq!(parse_duration(" \t+2h\n").unwrap(), Duration::from_secs(7200));
    assert_eq!(parse_duration("\u{3000}0s\u{a0}").unwrap(), Duration::from_secs(0));
    assert!(matches!(parse_duration("1xh"), Err(DurationError::InvalidNumber(t)) if t == "1x"));
    assert!(matches!(parse_duration("h"), Err(DurationError::InvalidNumber(t)) if t.is_empty()));
    assert!(matches!(parse_duration(" 24 "), Err(DurationError::InvalidSuffix(t)) if t == "24"));
    assert!(matches!(parse_duration(""), Err(DurationError::InvalidSuffix(t)) if t.is_empty()));
    assert_eq!(
        invalid_suffix_message("24"),
        "invalid duration '24': use suffix h/m/s/d (e.g. '24h')"
    );
    assert!(is_duration_in_range("18446744073709551615s"));
    assert!(!is_duration_in_range("18446744073709551615m"));
    assert!(is_duration_in_range("18446744073709551616d"));
    assert!(is_duration_in_range("nonsense"));
}

#[test]
fn test_gc_state_round_trip() {
    let mut state = GcState::default();
    state.mark_dead_pack(0, 0xDEADBEEF);
    let saved = state.save();

    let loaded = GcState::load(Some(&saved));
    assert!(loaded.dead_packs.contains_key(&pack_key(0, 0xDEADBEEF)));
    assert_eq!(
        loaded.dead_packs.get(&pack_key(0, 0xDEADBEEF)),
        state.dead_packs.get(&pack_key(0, 0xDEADBEEF))
    );
    assert_eq!(loaded.dead_packs.len(), 1);
    assert_eq!(loaded.dead_layers.len(), 0);
}

#[test]
fn test_gc_state_load_missing() {
    let state = GcState::load(None);
    assert_eq!(state.dead_packs.len(), 0);
}

#[test]
fn test_gc_state_eligibility() {
    let mut state = GcState::default();
    let chunk_idx = 0u32;
    let pack_id: u64 = 0x1234567890ABCDEF;

    // Not in state -> not eligible
    assert!(!state.is_pack_eligible(chunk_idx, pack_id, Duration::from_secs(3600)));

    // Mark dead with a timestamp in the past
    let old_ts = Utc::now() - Span::hours(25);
    state.dead_packs.insert(pack_key(chunk_idx, pack_id), old_ts.to_rfc3339());

    // Should be eligible (dead > 24h)
    assert!(state.is_pack_eligible(chunk_idx, pack_id, Duration::from_secs(86400)));

    // Should NOT be eligible with longer grace period
    assert!(!state.is_pack_eligible(chunk_idx, pack_id, Duration::from_secs(100 * 3600)));
}

#[test]
fn test_gc_state_mark_alive_removes() {
    let mut state = GcState::default();
    let chunk_idx = 0u32;
    let pack_id: u64 = 0xCAFEBABE;
    state.mark_dead_pack(chunk_idx, pack_id);
    assert!(state.dead_packs.contains_key(&pack_key(chunk_idx, pack_id)));

    state.mark_alive_pack(chunk_idx, pack_id);
    assert!(!state.dead_packs.contains_key(&pack_key(chunk_idx, pack_id)));
}

#[test]
fn test_pack_key_format() {
    assert_eq!(pack_key(0, 0xDEADBEEF01234567), "0000/deadbeef01234567");
    assert_eq!(pack_key(42, 0x0000000000000001), "0042/0000000000000001");
}

#[test]
fn pack_keys_read_back() {
    for p in [(0, 0), (9999, u64::MAX), (10000, 1), (u32::MAX, 0xDEADBEEF01234567)] {
        assert_eq!(parse_pack_path(&format!("{}.pack", pack_key(p.0, p.1))), Some(p));
    }
    assert_eq!(parse_pack_path("0001/deadbeef0123456.pack"), None);
    assert_eq!(parse_pack_path("0001/deadbeef012345678.pack"), None);
    assert_eq!(parse_pack_path("0001/deadbeef0123456g.pack"), None);
    assert_eq!(parse_pack_path("0001/deadbeef01234567"), None);
    assert_eq!(parse_pack_path("4294967296/deadbeef01234567.pack"), None);
    assert_eq!(parse_pack_path("deadbeef01234567.pack"), None);
    assert_eq!(parse_pack_path("1/DEADBEEF01234567.pack"), Some((1, 0xDEADBEEF01234567)));
    assert_eq!(parse_pack_path("+1/+000000000000001.pack"), Some((1, 1)));
}

#[test]
fn eligibility_starts_when_the_grace_period_has_passed() {
    let mut state = new_gc_state_for_test();
    state.mark_dead_pack_at(3, 7, (1_000_000_000, 500));
    let grace = Duration::from_secs(60);
    assert!(!state.is_pack_eligible_at(3, 7, grace, (1_000_000_060, 499)));
    assert!(state.is_pack_eligible_at(3, 7, grace, (1_000_000_060, 500)));
    // Marking it again does not restart the grace period.
    state.mark_dead_pack_at(3, 7, (1_000_000_050, 0));
    assert!(state.is_pack_eligible_at(3, 7, grace, (1_000_000_060, 500)));
    assert_eq!(
        state.dead_packs.get(&pack_key(3, 7)).unwrap(),
        "2001-09-09T01:46:40.000000500+00:00"
    );
    // A time in the future counts as now, and one that is no time never counts.
    assert!(!state.is_pack_eligible_at(3, 7, grace, (0, 0)));
    assert!(state.is_pack_eligible_at(3, 7, Duration::from_secs(0), (0, 0)));
    state.dead_packs.insert(pack_key(3, 7), text("yesterday"));
    assert!(!state.is_pack_eligible_at(3, 7, Duration::from_secs(0), (2_000_000_000, 0)));
}

#[test]
fn leap_seconds_count() {
    let mut state = new_gc_state_for_test();
    state.dead_packs.insert(pack_key(0, 1), text("2016-12-31T10:30:60.5Z"));
    // 10:31:00 is half a second after the middle of the leap second.
    let next_minute = 1_483_180_260;
    assert!(state.is_pack_eligible_at(0, 1, Duration::from_millis(500), (next_minute, 0)));
    assert!(!state.is_pack_eligible_at(0, 1, Duration::from_millis(501), (next_minute, 0)));
    assert!(is_valid_instant((next_minute - 1, 1_500_000_000)));
    assert!(!is_valid_instant((next_minute, 1_500_000_000)));
    assert!(is_valid_instant((-1, 1_000_000_000)));
    assert!(!is_valid_instant((i64::MIN, 0)));
}

#[test]
fn delta_marks_first_and_then_forgets() {
    let mut state = new_gc_state_for_test();
    state.dead_packs.insert(text("old"), text("t0"));
    state.dead_packs.insert(text("gone"), text("t0"));
    let mut delta = GcStateDelta::default();
    delta.newly_dead_packs = vec![
        (text("old"), text("t1")),
        (text("new"), text("t1")),
        (text("new"), text("t2")),
        (text("back"), text("t1")),
    ];
    delta.revived_packs = vec![text("back")];
    delta.deleted_packs = vec![text("gone"), text("unknown")];
    delta.newly_dead_layers = vec![(text("layer"), text("t1")), (text("layer2"), text("t1"))];
    delta.revived_layers = vec![text("layer2")];
    state.apply_delta(&delta);
    assert_eq!(state.dead_packs.get(&text("old")).unwrap(), "t0");
    assert_eq!(state.dead_packs.get(&text("new")).unwrap(), "t1");
    assert!(!state.dead_packs.contains_key(&text("back")));
    assert!(!state.dead_packs.contains_key(&text("gone")));
    assert_eq!(state.dead_packs.len(), 2);
    assert_eq!(state.dead_layers.get(&text("layer")).unwrap(), "t1");
    assert_eq!(state.dead_layers.len(), 1);
    delta.deleted_layers = vec![text("layer")];
    state.apply_delta(&delta);
    assert_eq!(state.dead_layers.len(), 0);
}

#[test]
fn test_gc_reconciliation_deletes_orphaned_packs() {
    // Create 3 packs: pack_a (live), pack_b (dead), pack_c (dead)
    let pack_a: u64 = 0xAAAAAAAAAAAAAAAA;
    let pack_b: u64 = 0xBBBBBBBBBBBBBBBB;
    let pack_c: u64 = 0xCCCCCCCCCCCCCCCC;
    let chunk_idx = 0u32;
    let listing = listing(
        vec![Fetched::Packs(vec![(chunk_idx, pack_a)])],
        &[(chunk_idx, pack_a), (chunk_idx, pack_b), (chunk_idx, pack_c)],
        vec![],
    );

    let mut state = new_gc_state_for_test();
    let old_ts = hours_ago(25);
    inject_dead_pack_for_test(&mut state, chunk_idx, pack_b, old_ts);
    inject_dead_pack_for_test(&mut state, chunk_idx, pack_c, old_ts);

    let (report, mut deleted) =
        reconcile_prefix_for_test(&listing, &mut state, Duration::from_secs(3600), 100, false);

    assert_eq!(report.manifests_scanned(), 1);
    assert_eq!(report.live_packs(), 1, "only pack_a is live");
    assert_eq!(report.known_packs(), 3, "all 3 chunk packs known");
    assert_eq!(report.dead_found(), 2, "pack_b and pack_c are dead");
    assert_eq!(report.eligible_for_deletion(), 2, "both past grace period");
    assert_eq!(report.packs_deleted(), 2, "both should be deleted");
    assert_eq!(report.deleted_count(), 2);
    assert_eq!(report.manifest_errors(), 0);
    deleted.sort();
    assert_eq!(deleted, [(0, pack_b), (0, pack_c)]);

    // Verify dead packs were removed from GC state
    assert!(!state.dead_packs.contains_key(&pack_key(chunk_idx, pack_b)));
    assert!(!state.dead_packs.contains_key(&pack_key(chunk_idx, pack_c)));
}

#[test]
fn test_gc_dry_run_doesnt_delete() {
    let dead_pack: u64 = 0xDEADDEADDEADDEAD;
    let listing = listing(vec![Fetched::Packs(vec![])], &[(0, dead_pack)], vec![]);
    let mut state = new_gc_state_for_test();
    inject_dead_pack_for_test(&mut state, 0, dead_pack, hours_ago(25));

    let (report, deleted) =
        reconcile_prefix_for_test(&listing, &mut state, Duration::from_secs(3600), 100, true);

    assert_eq!(report.packs_deleted(), 1, "dry run should report as deleted");
    assert!(deleted.is_empty(), "pack should still exist after dry run");
    assert!(state.dead_packs.contains_key(&pack_key(0, dead_pack)), "the pack is still there");
}

/// Walks over keys that stand in ascending order, as an object store lists them.
fn discover(db_path: &str, keys: &[&str]) -> (Vec<String>, usize) {
    let mut walk = Discovery::new(db_path);
    let mut requests = 1;
    let mut next = walk.entry(keys.first().copied());
    while let DiscoverNext::ListAfter(offset) = next {
        requests += 1;
        next = walk.entry(keys.iter().copied().find(|k| *k > offset.as_str()));
    }
    (walk.prefixes, requests)
}

#[test]
fn test_gc_discover_prefixes_delimiter() {
    let (prefixes, requests) = discover(
        "db",
        &[
            "db/exports/vm1/chunks/0000/1234567890abcdef.pack",
            "db/exports/vm1/manifests/vm1",
            "db/exports/vm2/manifests/vm2",
        ],
    );
    assert_eq!(prefixes, ["db/exports/vm1", "db/exports/vm2"]);
    assert_eq!(requests, 3);
}

#[test]
fn test_gc_discover_prefixes_empty() {
    let (prefixes, requests) = discover("db", &[]);
    assert!(prefixes.is_empty());
    assert_eq!(requests, 1);
}

#[test]
fn test_discover_s3_prefixes_robust_to_non_paginating_backend() {
    let count = 5usize;
    let keys: Vec<String> =
        (0..count).map(|i| format!("db/exports/vm{i:03}/manifests/m")).collect();
    let keys: Vec<&str> = keys.iter().map(|k| k.as_str()).collect();
    let (prefixes, _) = discover("db", &keys);
    assert_eq!(prefixes.len(), count);
    for i in 0..count {
        assert!(prefixes.contains(&format!("db/exports/vm{i:03}")));
    }
}

#[test]
fn test_discover_s3_prefixes_many_exports() {
    let count = 1500usize;
    let keys: Vec<String> =
        (0..count).map(|i| format!("db/exports/vm{i:06}/manifests/m")).collect();
    let keys: Vec<&str> = keys.iter().map(|k| k.as_str()).collect();
    assert_eq!(discover("db", &keys).0.len(), count);
    assert_eq!(discover("db//", &keys[..3]).0.len(), 3);
}

#[test]
fn discovery_skips_no_sibling() {
    let (prefixes, _) = discover(
        "db",
        &[
            "db/exports/a-b/x",
            "db/exports/a.b/x",
            "db/exports/a/x",
            "db/exports/a/y",
            "db/exports/a0",
            "db/exports/a0/x",
            "db/exports/a0b/x",
            "db/exports/stray",
            "db/exports/z/x",
        ],
    );
    assert_eq!(
        prefixes,
        [
            "db/exports/a",
            "db/exports/a-b",
            "db/exports/a.b",
            "db/exports/a0",
            "db/exports/a0b",
            "db/exports/z",
        ]
    );
    let (prefixes, _) = discover("db", &["db/exports/a/x", "elsewhere/x"]);
    assert_eq!(prefixes, ["db/exports/a"]);
}

#[test]
fn test_gc_grace_period_blocks_new_dead() {
    let dead_pack: u64 = 0xDEAD000000000001;
    let listing = listing(vec![Fetched::Packs(vec![])], &[(0, dead_pack)], vec![]);

    // First run: pack is newly dead, 1h grace period -> not eligible.
    let mut state = new_gc_state_for_test();
    let (report, deleted) =
        reconcile_prefix_for_test(&listing, &mut state, Duration::from_secs(3600), 100, false);

    assert_eq!(report.dead_found(), 1);
    assert_eq!(report.eligible_for_deletion(), 0, "newly dead, not yet past grace");
    assert_eq!(report.packs_deleted(), 0);
    assert!(deleted.is_empty());

    // The pack should be tracked as dead now.
    assert!(state.dead_packs.contains_key(&pack_key(0, dead_pack)));
}

#[test]
fn test_gc_layer_pool_keeps_referenced_reaps_orphans() {
    let keep = "aa".repeat(32);
    let orphan = "bb".repeat(32);
    let prefix = layers_prefix("test");
    let paths = vec![
        format!("{}manifest", layer_prefix("test", &keep)),
        format!("{}chunks/0000/0000000000000001.pack", layer_prefix("test", &keep)),
        format!("{}manifest", layer_prefix("test", &orphan)),
    ];
    let present = list_layer_digests(&paths, &prefix);
    assert_eq!(present, [keep.clone(), orphan.clone()]);

    // An image references only `keep`.
    let live = collect_referenced_layers(&vec![vec![format!("sha256:{keep}")]]);
    assert_eq!(live, [keep]);

    let mut budget = 100;
    let mut state = GcState::default();
    let zero = Duration::from_secs(0);

    // Run 1 (grace 0): orphan is first seen dead → marked, not yet deleted.
    let plan = reconcile_layers(&live, &present, &state, zero, &mut budget, false);
    assert_eq!(plan.stats.live_layers, 1, "keep is referenced");
    assert_eq!(plan.stats.dead_layers_found, 1, "orphan unreferenced");
    assert_eq!(plan.stats.layers_deleted, 0, "first sighting is never deleted");
    state.apply_delta(&plan.delta);

    // Run 2: orphan now past (zero) grace → deleted; keep survives.
    let plan = reconcile_layers(&live, &present, &state, zero, &mut budget, false);
    assert_eq!(plan.stats.layers_deleted, 1);
    assert_eq!(plan.deletes, [orphan]);
    assert_eq!(budget, 99);
    state.apply_delta(&plan.delta);
    assert_eq!(state.dead_layers.len(), 0);
}

#[test]
fn test_gc_layer_revived_when_image_added() {
    let digest = "cc".repeat(32);
    let present = vec![digest.clone()];
    let mut budget = 100;
    let mut state = GcState::default();
    let zero = Duration::from_secs(0);

    // No image yet → layer marked dead.
    let plan = reconcile_layers(&vec![], &present, &state, zero, &mut budget, false);
    state.apply_delta(&plan.delta);
    assert!(state.dead_layers.contains_key(&digest));

    // An image now references it → revived (dead mark cleared), never deleted.
    let plan = reconcile_layers(&present, &present, &state, zero, &mut budget, false);
    state.apply_delta(&plan.delta);
    assert_eq!(plan.stats.live_layers, 1);
    assert_eq!(plan.stats.layers_deleted, 0);
    assert!(!state.dead_layers.contains_key(&digest), "layer must be revived once referenced");
}

#[test]
fn layers_meet_every_fate() {
    let mut state = GcState::default();
    state.dead_layers.insert(text("old"), text("2001-09-09T01:46:40Z"));
    let now = (1_000_000_100, 0);
    let hour = Duration::from_secs(100);
    let two = Duration::from_secs(200);
    let mut budget = 1;
    let mut fate = |digest: &str, live, grace, dry_run| {
        layer_fate(&text(digest), live, &state, grace, &mut budget, dry_run, now)
    };
    assert_eq!(fate("old", true, hour, false), LayerFate::Live { revived: true });
    assert_eq!(fate("new", true, hour, false), LayerFate::Live { revived: false });
    assert_eq!(fate("old", false, hour, true), LayerFate::Eligible);
    assert_eq!(fate("old", false, two, false), LayerFate::Waiting);
    assert_eq!(fate("new", false, hour, false), LayerFate::NewlyDead);
    assert_eq!(fate("old", false, hour, false), LayerFate::Delete);
    assert_eq!(fate("old", false, hour, false), LayerFate::NoBudget);
    assert!(state.is_layer_eligible(&text("old"), hour));
    assert!(!state.is_layer_eligible(&text("new"), hour));
}

#[test]
fn test_gc_zero_grace_period_deletes_immediately() {
    let dead_pack: u64 = 0xDEAD000000000002;
    let listing = listing(vec![Fetched::Packs(vec![])], &[(0, dead_pack)], vec![]);
    let mut state = new_gc_state_for_test();
    let (report, _) =
        reconcile_prefix_for_test(&listing, &mut state, Duration::from_secs(0), 100, false);

    assert_eq!(report.dead_found(), 1);
    assert_eq!(report.eligible_for_deletion(), 1, "zero grace: immediately eligible");
    assert_eq!(report.packs_deleted(), 1);
}

#[test]
fn test_gc_revives_packs_that_become_live() {
    let pack_id: u64 = 0xAAAA000000000001;

    // First: manifest does NOT reference pack -> it's dead.
    let mut state = new_gc_state_for_test();
    let dead = listing(vec![Fetched::Packs(vec![])], &[(0, pack_id)], vec![]);
    let _ = reconcile_prefix_for_test(&dead, &mut state, Duration::from_secs(3600), 100, false);
    assert!(state.dead_packs.contains_key(&pack_key(0, pack_id)));

    // Now update manifest to reference the pack -> it's live again.
    let live = listing(vec![Fetched::Packs(vec![(0, pack_id)])], &[(0, pack_id)], vec![]);
    let _ = reconcile_prefix_for_test(&live, &mut state, Duration::from_secs(3600), 100, false);

    // Should be revived (removed from dead_packs).
    assert!(!state.dead_packs.contains_key(&pack_key(0, pack_id)));
}

#[test]
fn test_gc_multi_chunk_packs() {
    // Packs in different chunks.
    let pack_0a: u64 = 0x0A0A0A0A0A0A0A0A;
    let pack_0b: u64 = 0x0B0B0B0B0B0B0B0B;
    let pack_5a: u64 = 0x5A5A5A5A5A5A5A5A;

    // Manifest references pack_0a in chunk 0 and pack_5a in chunk 5.
    let listing = listing(
        vec![Fetched::Packs(vec![(0, pack_0a), (5, pack_5a)])],
        &[(0, pack_0a), (0, pack_0b), (5, pack_5a)],
        vec![],
    );
    let mut state = new_gc_state_for_test();
    inject_dead_pack_for_test(&mut state, 0, pack_0b, hours_ago(25));

    let (report, _) =
        reconcile_prefix_for_test(&listing, &mut state, Duration::from_secs(3600), 100, false);

    assert_eq!(report.live_packs(), 2, "pack_0a and pack_5a are live");
    assert_eq!(report.known_packs(), 3);
    assert_eq!(report.dead_found(), 1, "only pack_0b is dead");
    assert_eq!(report.packs_deleted(), 1);
}

#[test]
fn test_gc_snapshot_packs_are_live() {
    let pack_main: u64 = 0x1111111111111111;
    let pack_snap: u64 = 0x2222222222222222;
    let listing = listing(
        vec![Fetched::Packs(vec![(0, pack_main)])],
        &[(0, pack_main), (0, pack_snap)],
        vec![Fetched::Packs(vec![(0, pack_snap)])],
    );
    let mut state = new_gc_state_for_test();
    let (report, _) =
        reconcile_prefix_for_test(&listing, &mut state, Duration::from_secs(0), 100, false);

    // pack_main is live from manifest, pack_snap is saved by snapshot.
    assert_eq!(report.live_packs(), 1, "only pack_main from live manifest");
    assert_eq!(report.dead_found(), 0, "snapshot removed pack_snap from maybe_dead");
    assert_eq!(report.packs_deleted(), 0);
}

#[test]
fn test_gc_max_deletes_cap() {
    // Create 5 dead packs.
    let dead_packs: Vec<u64> = (1..=5u64).map(|i| i * 0x1000000000000000).collect();
    let refs: Vec<PackRef> = dead_packs.iter().map(|&id| (0, id)).collect();
    let listing = listing(vec![Fetched::Packs(vec![])], &refs, vec![]);
    let mut state = new_gc_state_for_test();
    for &pack_id in &dead_packs {
        inject_dead_pack_for_test(&mut state, 0, pack_id, hours_ago(25));
    }

    let (report, deleted) =
        reconcile_prefix_for_test(&listing, &mut state, Duration::from_secs(3600), 2, false);

    assert_eq!(report.dead_found(), 5);
    assert_eq!(report.eligible_for_deletion(), 5);
    assert_eq!(report.packs_deleted(), 2, "capped at max_deletes");
    assert_eq!(deleted.len(), 2);
    assert_eq!(state.dead_packs.len(), 3);
}

#[test]
fn test_list_all_packs_parsing() {
    let paths = vec![
        path_of((0, 0xDEADBEEF01234567)),
        path_of((42, 0x0000000000000001)),
        path_of((0, 0xCAFEBABE89ABCDEF)),
        format!("{CHUNKS}0000/notes.txt"),
    ];
    let packs = list_all_packs(&paths, CHUNKS);
    assert_eq!(packs.len(), 3);
    assert!(packs.contains((0, 0xDEADBEEF01234567)));
    assert!(packs.contains((42, 0x0000000000000001)));
    assert!(packs.contains((0, 0xCAFEBABE89ABCDEF)));
}

#[test]
fn test_gc_aborts_when_snapshot_read_fails() {
    let pack_main: u64 = 0x1111111111111111;
    let pack_snap_only: u64 = 0x2222222222222222;
    let listing = listing(
        vec![Fetched::Packs(vec![(0, pack_main)])],
        &[(0, pack_main), (0, pack_snap_only)],
        vec![Fetched::Failed],
    );
    let mut state = new_gc_state_for_test();
    inject_dead_pack_for_test(&mut state, 0, pack_snap_only, hours_ago(25));

    let (report, deleted) =
        reconcile_prefix_for_test(&listing, &mut state, Duration::from_secs(0), 100, false);

    // GC must abort the prefix — zero deletions.
    assert_eq!(report.packs_deleted(), 0, "must not delete packs when a snapshot is unreadable");
    assert!(deleted.is_empty());
    assert!(state.dead_packs.contains_key(&pack_key(0, pack_snap_only)));
}

#[test]
fn unreadable_manifest_changes_nothing() {
    let mut state = new_gc_state_for_test();
    inject_dead_pack_for_test(&mut state, 0, 1, hours_ago(25));
    let listing = listing(
        vec![Fetched::Packs(vec![(0, 1)]), Fetched::Failed, Fetched::Gone],
        &[(0, 1), (0, 2)],
        vec![],
    );
    let mut budget = 10;
    let plan = reconcile_prefix(&listing, &state, Duration::from_secs(0), &mut budget);
    assert!(!plan.decided);
    assert_eq!(budget, 10);
    let (delta, stats) = plan.finish(false, &vec![]);
    assert_eq!(stats.manifests_scanned, 1);
    assert_eq!(stats.manifest_errors, 1);
    assert_eq!(stats.prefixes_scanned, 0);
    state.apply_delta(&delta);
    assert_eq!(state.dead_packs.len(), 1);
}

#[test]
fn snapshots_end_when_nothing_is_left() {
    let listing = listing(
        vec![Fetched::Packs(vec![])],
        &[(0, 1), (0, 2)],
        vec![
            Fetched::Packs(vec![(0, 1)]),
            Fetched::Gone,
            Fetched::Packs(vec![(0, 2)]),
            Fetched::Failed,
        ],
    );
    let state = new_gc_state_for_test();
    let mut budget = 10;
    let plan = reconcile_prefix(&listing, &state, Duration::from_secs(0), &mut budget);
    assert!(plan.decided);
    assert_eq!(plan.stats.snapshots_checked, 2);
    assert_eq!(plan.stats.dead_found, 0);
}

#[test]
fn dry_run_hands_out_no_deletes() {
    let state = new_gc_state_for_test();
    let listing = listing(vec![Fetched::Packs(vec![])], &[(0, 1), (0, 2)], vec![]);
    let mut budget = 10;
    let now = (1_700_000_000, 0);
    let plan = reconcile_prefix_at(&listing, &state, Duration::from_secs(0), &mut budget, now);
    assert_eq!(plan.packs_to_delete(true), []);
    let mut deletes = plan.packs_to_delete(false);
    deletes.sort();
    assert_eq!(deletes, [(0, 1), (0, 2)]);
    let unfinished = PrefixScan::new().unfinished();
    assert!(!unfinished.decided);
    assert_eq!(unfinished.packs_to_delete(false), []);
}

#[test]
fn counters_of_a_run_may_not_fit() {
    let part = |live_packs| (GcStateDelta::default(), GcStats { live_packs, ..GcStats::default() });
    assert!(can_merge_results(&vec![]));
    assert!(can_merge_results(&vec![part(usize::MAX), part(0)]));
    assert!(!can_merge_results(&vec![part(usize::MAX), part(0), part(1)]));
}

#[test]
fn pack_that_could_not_be_deleted_stays_marked() {
    let mut state = new_gc_state_for_test();
    let listing = listing(vec![Fetched::Packs(vec![])], &[(0, 1), (0, 2)], vec![]);
    let mut budget = 10;
    let now = (1_700_000_000, 0);
    let plan = reconcile_prefix_at(&listing, &state, Duration::from_secs(0), &mut budget, now);
    assert_eq!(plan.deletes.len(), 2);
    assert_eq!(budget, 8);
    let (delta, stats) = plan.finish(false, &vec![((0, 1), true), ((0, 2), false)]);
    assert_eq!(stats.packs_deleted, 1);
    assert_eq!(stats.prefixes_scanned, 1);
    state.apply_delta(&delta);
    assert!(!state.dead_packs.contains_key(&pack_key(0, 1)));
    assert_eq!(state.dead_packs.get(&pack_key(0, 2)).unwrap(), "2023-11-14T22:13:20+00:00");
}

#[test]
fn test_gc_shared_prefix_base_packs_survive_fork_cleanup() {
    let pack_a: u64 = 0xAAAAAAAAAAAAAAAA;
    let pack_b: u64 = 0xBBBBBBBBBBBBBBBB;
    let pack_c: u64 = 0xCCCCCCCCCCCCCCCC;
    let pack_d: u64 = 0xDDDDDDDDDDDDDDDD; // fork-only pack
    let base = vec![(0, pack_a), (0, pack_b), (0, pack_c)];
    let all = vec![(0, pack_a), (0, pack_b), (0, pack_c), (0, pack_d)];
    let zero = Duration::from_secs(0);

    // GC run 1: both manifests present, all packs live
    let mut state = new_gc_state_for_test();
    let both =
        listing(vec![Fetched::Packs(base.clone()), Fetched::Packs(all.clone())], &all, vec![]);
    let (report, _) = reconcile_prefix_for_test(&both, &mut state, zero, 100, false);
    assert_eq!(report.manifests_scanned(), 2);
    assert_eq!(report.live_packs(), 4);
    assert_eq!(report.dead_found(), 0);
    assert_eq!(report.packs_deleted(), 0);

    // GC run 2: only base manifest, pack_d should be dead
    let mut state2 = new_gc_state_for_test();
    let only_base = listing(vec![Fetched::Packs(base)], &all, vec![]);
    let (report2, deleted) = reconcile_prefix_for_test(&only_base, &mut state2, zero, 100, false);
    assert_eq!(report2.manifests_scanned(), 1, "only base manifest");
    assert_eq!(report2.live_packs(), 3, "A, B, C still live");
    assert_eq!(report2.dead_found(), 1, "only pack_d is dead");
    assert_eq!(report2.packs_deleted(), 1, "pack_d deleted");
    assert_eq!(deleted, [(0, pack_d)]);
}

#[test]
fn test_gc_never_deletes_live_packs() {
    let base_pack: u64 = 0x1111111111111111;
    let fork_pack: u64 = 0x2222222222222222;
    let orphan_pack: u64 = 0x3333333333333333;
    let manifests = [vec![(0, base_pack)], vec![(0, base_pack), (0, fork_pack)]];
    let packs = [(0, base_pack), (0, fork_pack), (0, orphan_pack)];
    let listing =
        listing(manifests.iter().map(|m| Fetched::Packs(m.clone())).collect(), &packs, vec![]);
    let mut state = new_gc_state_for_test();
    let (report, deleted) =
        reconcile_prefix_for_test(&listing, &mut state, Duration::from_secs(0), 100, false);
    assert_eq!(report.packs_deleted(), 1, "only orphan_pack deleted");
    for p in manifests.iter().flatten() {
        assert!(!deleted.contains(p), "a manifest references a pack which was deleted");
    }
}

#[test]
fn test_gc_shared_budget_caps_total_deletes_across_prefixes() {
    let dead: u64 = 0xDEAD_BEEF_DEAD_BEEF;
    let listings: Vec<PrefixListing> = (0..3)
        .map(|_| listing(vec![Fetched::Packs(vec![])], &[(0, dead)], vec![]))
        .collect();
    let mut state = new_gc_state_for_test();
    let mut budget = 2;
    let now = hours_ago(0);
    let plans =
        reconcile_prefixes_at(&listings, &state, Duration::from_secs(0), &mut budget, now);
    let survivors = plans.iter().filter(|p| p.deletes.is_empty()).count();
    let results: Vec<(GcStateDelta, GcStats)> = plans
        .into_iter()
        .map(|p| {
            let done = p.deletes.iter().map(|&d| (d, true)).collect();
            p.finish(false, &done)
        })
        .collect();
    let stats = merge_results(&mut state, &results);
    assert_eq!(stats.prefixes_scanned, 3);
    assert_eq!(stats.dead_found, 3, "all three prefixes have one dead pack");
    assert_eq!(stats.eligible_for_deletion, 3);
    assert_eq!(stats.packs_deleted, 2, "shared budget should cap total deletes at 2");
    assert_eq!(survivors, 1, "exactly 1 pack should survive the budget cap");
}

#[test]
fn budget_is_spent_in_order() {
    let listings: Vec<PrefixListing> = (0..4u32)
        .map(|i| {
            listing(vec![Fetched::Packs(vec![])], &[(i, 1), (i, 2), (i, 3)], vec![])
        })
        .collect();
    let mut state = new_gc_state_for_test();
    let mut budget = 5;
    let now = (1_700_000_000, 0);
    let zero = Duration::from_secs(0);
    let plans = reconcile_prefixes_at(&listings, &state, zero, &mut budget, now);
    let total: usize = plans.iter().map(|p| p.deletes.len()).sum();
    assert_eq!(total, 5);
    assert_eq!(budget, 0);
    let results: Vec<(GcStateDelta, GcStats)> = plans
        .into_iter()
        .map(|p| {
            let done = p.deletes.iter().map(|&d| (d, true)).collect();
            p.finish(false, &done)
        })
        .collect();
    let stats = merge_results(&mut state, &results);
    assert_eq!(stats.prefixes_scanned, 4);
    assert_eq!(stats.eligible_for_deletion, 12);
    assert_eq!(stats.packs_deleted, 5);
    assert_eq!(state.dead_packs.len(), 7);
}

#[test]
fn slots_of_the_budget() {
    let mut budget = 2;
    assert!(try_claim_delete_slot(&mut budget));
    assert!(try_claim_delete_slot(&mut budget));
    assert!(!try_claim_delete_slot(&mut budget));
    assert_eq!(budget, 0);
}

#[test]
fn counters_that_do_not_fit() {
    let mut a = GcStats::default();
    a.live_layers = usize::MAX;
    let mut b = GcStats::default();
    assert!(a.can_merge(&b));
    b.live_layers = 1;
    assert!(!a.can_merge(&b));
    b.merge(GcStats { known_packs: 3, ..GcStats::default() });
    assert_eq!((b.live_layers, b.known_packs), (1, 3));
}

#[test]
fn sets_of_packs() {
    let mut set = PackSet::new();
    assert!(set.is_empty());
    set.insert((1, 2));
    set.insert((1, 2));
    set.insert((2, 1));
    assert_eq!(set.len(), 2);
    assert!(set.contains((1, 2)) && !set.contains((0, 2)));
    let mut list = set.to_vec();
    list.sort();
    assert_eq!(list, [(1, 2), (2, 1)]);
    set.remove((1, 2));
    assert!(!set.contains((1, 2)));
}

#[test]
fn names_in_the_object_store() {
    assert_eq!(digest_hex("sha256:abc"), "abc");
    assert_eq!(digest_hex("abc"), "abc");
    assert_eq!(layers_prefix("db//"), "db/layers/");
    assert_eq!(layer_prefix("db", "abc"), "db/layers/abc/");
    let prefix = "p/manifests/";
    assert_eq!(manifest_name("p/manifests/bases/x", prefix).unwrap(), "bases/x");
    assert_eq!(manifest_name("p/manifests/", prefix), None);
    assert_eq!(manifest_name("p/manifests/x.boot-set", prefix), None);
    assert_eq!(manifest_name("p/manifests/x.hot-set", prefix), None);
    assert_eq!(manifest_name("q/manifests/x", prefix), None);
}
