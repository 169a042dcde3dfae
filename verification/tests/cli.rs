use glidefs::cli::bless::{
    add_paths, base_manifest_key, bless_scratch_dir, derive_boot_set, erofs_device_name,
    estimate_device_size, is_device_size_in_range, oci_device_name, prefetch_extent,
    profile_timeout, total_blocks, Drain, DrainNext, ScratchDir, StoredLayers,
};
use glidefs::cli::export_path;
use glidefs::cli::handoff::{CtlWire, HandoffReply, PassedOn};
use glidefs::cli::profile::{is_shortenable, profile_spec, runs_merged, short, ProfileArgs};
use glidefs::cli::push::{push_cache_config, push_device_name};
use glidefs::cli::server::{
    adopt_listeners, export_line, has_exports, plan_listeners, prewarm_paths, shutdown_result,
    successor_binary_path, successor_serve, BindNext, BindRetry, ExportDevice, HandoffEnd,
    ListenerKind, Registrations, ServerAction, ServerEvent, ShutdownEnd, SignalLoop,
    SuccessorServe,
};
use glidefs::time::Duration;

fn texts(list: &[&str]) -> Vec<String> {
    list.iter().map(|s| s.to_string()).collect()
}

#[test]
fn device_sizes() {
    assert_eq!(estimate_device_size(&vec![]), 64 * 1024 * 1024);
    assert_eq!(estimate_device_size(&vec![16 * 1024 * 1024]), 64 * 1024 * 1024);
    assert_eq!(estimate_device_size(&vec![16 * 1024 * 1024, 1]), 128 * 1024 * 1024);
    assert_eq!(estimate_device_size(&vec![1 << 61]), 1 << 63);
    assert!(is_device_size_in_range(&vec![1 << 61]));
    assert!(!is_device_size_in_range(&vec![1 << 61, 1]));
    assert!(!is_device_size_in_range(&vec![u64::MAX, 1]));
    assert_eq!(total_blocks(0), 0);
    assert_eq!(total_blocks(131_072), 1);
    assert_eq!(total_blocks(131_073), 2);
}

#[test]
fn drains_until_nothing_is_claimed() {
    let mut drain = Drain::new();
    assert_eq!(drain.flushed(7), DrainNext::Again);
    assert_eq!(drain.flushed(0), DrainNext::Done);
    assert_eq!(drain.iterations, 2);

    let mut drain = Drain::new();
    for _ in 0..99 {
        assert_eq!(drain.flushed(1), DrainNext::Again);
    }
    assert_eq!(drain.flushed(1), DrainNext::NotConverged);
}

#[test]
fn boot_sets() {
    let captured = texts(&["/init", "/lib/b", "/init"]);
    let derived = texts(&["/lib/a", "/lib/b", "/lib/a"]);
    assert_eq!(
        derive_boot_set(true, Some(captured.clone()), derived.clone()),
        texts(&["/init", "/lib/b", "/init", "/lib/a"])
    );
    assert_eq!(derive_boot_set(false, Some(captured), derived.clone()), derived);
    assert_eq!(derive_boot_set(true, Some(vec![]), derived.clone()), derived);
    assert_eq!(derive_boot_set(true, None, derived.clone()), derived);
    let mut none = vec![];
    add_paths(&mut none, &derived);
    assert_eq!(none, texts(&["/lib/a", "/lib/b"]));
}

#[test]
fn bless_settings() {
    assert_eq!(profile_timeout(None), Duration::from_secs(30));
    assert_eq!(profile_timeout(Some("5")), Duration::from_secs(5));
    assert_eq!(profile_timeout(Some("5s")), Duration::from_secs(30));
    assert!(matches!(bless_scratch_dir(Some("/x".into()), true), ScratchDir::Given(d) if d == "/x"));
    assert!(matches!(bless_scratch_dir(None, true), ScratchDir::VarTmp));
    assert!(matches!(bless_scratch_dir(None, false), ScratchDir::SystemTemp));
    assert_eq!(prefetch_extent(0), None);
    assert_eq!(prefetch_extent(9), Some(9));
    assert_eq!(base_manifest_key("ubuntu"), "bases/ubuntu");
    assert_eq!(oci_device_name("u"), "bless-oci-u");
    assert_eq!(erofs_device_name("u"), "bless-erofs-u");
    assert_eq!(export_path("db", "vm"), "db/exports/vm");
}

#[test]
fn stored_layers_add_up() {
    let mut layers = StoredLayers::new();
    layers.stored("a".into(), 10, false, 7);
    layers.stored("b".into(), 20, true, 0);
    assert_eq!(layers.digests, ["a", "b"]);
    assert_eq!(layers.sizes, [10, 20]);
    assert_eq!((layers.total_stored, layers.reused), (7, 1));
}

#[test]
fn push_reads_through_a_device_of_its_own() {
    assert_eq!(push_device_name("bases/ubuntu/24"), "push-bases-ubuntu-24");
    let config = push_cache_config("/tmp/x".into(), "my-vm", 1 << 30);
    assert_eq!(config.device_name, "push-my-vm");
    assert_eq!(config.device_size, 1 << 30);
    assert_eq!(config.block_size, 131_072);
    assert!(!config.wal_sync);
}

fn profile_args(timeout: u64, untrusted: bool) -> ProfileArgs {
    ProfileArgs {
        name: "base".into(),
        s3_prefix: "p".into(),
        config: "c".into(),
        sandbox: None,
        cmd: None,
        timeout,
        fs_type: None,
        runs: 2,
        force: false,
        untrusted,
        max_blocks: 10,
    }
}

#[test]
fn profiles() {
    let spec = profile_spec(profile_args(0, true));
    assert_eq!(spec.timeout, Duration::from_secs(1));
    assert!(!spec.trusted);
    let spec = profile_spec(profile_args(30, false));
    assert_eq!(spec.timeout, Duration::from_secs(30));
    assert!(spec.trusted && spec.seed_paths.is_empty());
    assert_eq!((runs_merged(0), runs_merged(2), runs_merged(9)), (1, 2, 3));
    assert_eq!(short("\"0123456789abcdef\""), "0123456789abcdef");
    assert_eq!(short("\"0123456789abcdefg\""), "0123456789abcdef…");
    assert_eq!(short("\"\"\""), "");
    assert!(is_shortenable("0123456789abcdéf"));
    assert!(!is_shortenable("0123456789abcdeéf"));
}

const WIRE: CtlWire = CtlWire {
    request_handoff: 1,
    request_handoff_dry_run: 2,
    response_accepted: 10,
    response_busy: 11,
    response_unsupported: 12,
};

#[test]
fn handoff_requests_and_responses() {
    for dry_run in [false, true] {
        assert_eq!(WIRE.read_request(WIRE.request(dry_run)), Some(dry_run));
    }
    assert_eq!(WIRE.read_request(9), None);
    let reply = |passed_on| WIRE.read_response(&[WIRE.response(passed_on)]);
    assert_eq!(reply(PassedOn::Sent), HandoffReply::Accepted);
    assert_eq!(reply(PassedOn::Full), HandoffReply::Busy);
    assert_eq!(reply(PassedOn::Closed), HandoffReply::Unsupported);
    assert_eq!(reply(PassedOn::Unknown), HandoffReply::Unsupported);
    assert_eq!(WIRE.read_response(&[]), HandoffReply::NoResponse);
    assert_eq!(WIRE.read_response(&[0xff]), HandoffReply::Unexpected(0xff));
}

#[test]
fn devices_are_registered_a_few_at_a_time() {
    let exports: Vec<ExportDevice> = (0..20)
        .map(|i| ExportDevice {
            name: format!("vm{i}"),
            transport: "ublk".into(),
            has_device: i == 3,
        })
        .collect();
    let mut regs = Registrations::new(&exports);
    let mut started = vec![];
    while let Some((name, _)) = regs.start() {
        started.push(name);
    }
    assert_eq!(started.len(), 16);
    while !regs.is_done() {
        regs.finished();
        if let Some((name, _)) = regs.start() {
            started.push(name);
        }
    }
    assert_eq!(started.len(), 19);
    assert!(!started.contains(&"vm3".to_string()));
    assert_eq!(started[3], "vm4");
}

#[test]
fn listeners_are_adopted_once() {
    let list = plan_listeners(&texts(&["a:1", "b:2", "a:1"]), true, true);
    assert_eq!(list.len(), 5);
    let inherited =
        vec![ListenerKind::HttpApi, ListenerKind::NbdTcp("a:1".into()), ListenerKind::HttpApi];
    assert_eq!(adopt_listeners(&list, &inherited), [true, false, false, false, true]);
    assert!(plan_listeners(&vec![], false, false).is_empty());
}

#[test]
fn signals() {
    let mut state = SignalLoop::new();
    assert_eq!(state.event(ServerEvent::Drain), ServerAction::Drain);
    assert_eq!(state.event(ServerEvent::Control(None)), ServerAction::Ignore);
    assert_eq!(
        state.event(ServerEvent::Control(Some(true))),
        ServerAction::Handoff { dry_run: true }
    );
    assert_eq!(state.event(ServerEvent::Hangup), ServerAction::Ignore);
    assert_eq!(state.event(ServerEvent::Control(Some(false))), ServerAction::Ignore);
    assert!(!state.dispatch_handoff(true, HandoffEnd::Succeeded));
    assert!(state.drains_on_shutdown());
    assert_eq!(state.event(ServerEvent::Hangup), ServerAction::Handoff { dry_run: false });
    assert!(!state.dispatch_handoff(false, HandoffEnd::Revived));
    assert_eq!(state.event(ServerEvent::Hangup), ServerAction::Handoff { dry_run: false });
    assert!(state.dispatch_handoff(false, HandoffEnd::Succeeded));
    assert!(!state.drains_on_shutdown());
    assert_eq!(state.event(ServerEvent::Interrupt), ServerAction::Shutdown);
    assert_eq!(state.event(ServerEvent::Terminate), ServerAction::Shutdown);
}

#[test]
fn shutdowns() {
    let timeout = Duration::from_secs(30);
    assert_eq!(shutdown_result(ShutdownEnd::Done, timeout), Ok(()));
    assert_eq!(shutdown_result(ShutdownEnd::DrainFailed("no".into()), timeout), Err("no".into()));
    assert_eq!(
        shutdown_result(ShutdownEnd::TimedOut, timeout),
        Err("Shutdown timed out after 30s, exiting with possible dirty blocks".into())
    );
}

#[test]
fn waiting_for_a_port() {
    let mut retry = BindRetry::new();
    let delays: Vec<BindNext> = (0..6).map(|_| retry.tried(false, true)).collect();
    assert_eq!(delays, [5, 10, 20, 40, 50, 50].map(BindNext::RetryAfter));
    assert_eq!(retry.tried(false, false), BindNext::GiveUp);
    assert_eq!(retry.tried(true, false), BindNext::Free);
    assert_eq!(successor_serve(2, Some(80)), SuccessorServe::Adopt);
    assert_eq!(successor_serve(0, Some(80)), SuccessorServe::WaitFor(80));
    assert_eq!(successor_serve(0, None), SuccessorServe::Bind);
}

#[test]
fn paths_of_the_program() {
    let exe = "/usr/bin/glidefs (deleted)";
    assert_eq!(successor_binary_path(Some("/opt/g".into()), true, exe), "/opt/g");
    assert_eq!(successor_binary_path(Some("g".into()), false, exe), "/usr/bin/glidefs");
    assert_eq!(successor_binary_path(None, true, "/usr/bin/glidefs"), "/usr/bin/glidefs");
}

#[test]
fn exports_at_startup() {
    assert!(!has_exports(0, 0));
    assert!(has_exports(1, 0) && has_exports(0, 1));
    assert_eq!(
        prewarm_paths("db", &texts(&["b", "a", "b"])),
        texts(&["db/exports/a", "db/exports/b"])
    );
    assert_eq!(
        export_line("vm", 3 << 30, false, "ublk", Some("/dev/ublkb0")),
        "  - vm (3GB, read-write, transport=ublk, device=/dev/ublkb0)"
    );
    assert_eq!(export_line("vm", 1, true, "nbd", None), "  - vm (0GB, readonly, transport=nbd)");
}
