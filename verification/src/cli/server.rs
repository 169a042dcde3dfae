//! The server: what is started, how signals are answered, and how it ends.

use vstd::arithmetic::power::pow;
use vstd::prelude::*;
use vstd::string::StringExecFns;
use crate::cli::{export_path, export_path_text};
use crate::gc::discover::{ascending, insert_ascending};
use crate::gc::state::texts;
use crate::text::{before_suffix, decimal, push_decimal, strip_suffix};
use crate::time::Duration;

verus! {

/// How many kernel devices are registered at the same time.
pub const REGISTER_CONCURRENCY: usize = 16;

/// Longest pause between two tries to bind a port, in milliseconds.
pub const MAX_BIND_DELAY_MS: u64 = 50;

/// Pause after the first try to bind a port, in milliseconds.
pub const FIRST_BIND_DELAY_MS: u64 = 5;

/// Bytes of a gigabyte in the list of exports.
pub const GIB: u64 = 1_073_741_824;

/// The paths of exports whose base caches are warmed: each once.
pub fn prewarm_paths(db_path: &str, s3_prefixes: &Vec<String>) -> (paths: Vec<String>)
    ensures
        ascending(texts(paths@)),
        forall|p: Seq<char>| #[trigger]
            texts(paths@).contains(p) == exists|i: int|
                is_export_path(db_path@, texts(s3_prefixes@), i, p),
        forall|i: int|
            0 <= i < s3_prefixes@.len() ==> texts(paths@).contains(
                export_path_text(db_path@, (#[trigger] s3_prefixes@[i])@),
            ),
{
    let mut paths: Vec<String> = Vec::new();
    let mut i: usize = 0;
    while i < s3_prefixes.len()
        invariant
            i <= s3_prefixes@.len(),
            ascending(texts(paths@)),
            forall|p: Seq<char>| #[trigger]
                texts(paths@).contains(p) == exists|a: int|
                    a < i && is_export_path(db_path@, texts(s3_prefixes@), a, p),
        decreases s3_prefixes@.len() - i,
    {
        let path: String = export_path(db_path, s3_prefixes[i].as_str());
        let ghost text = path@;
        let ghost before = texts(paths@);
        insert_ascending(&mut paths, path);
        proof {
            assert forall|p: Seq<char>| #[trigger] texts(paths@).contains(p) == exists|a: int|
                a < i + 1 && is_export_path(db_path@, texts(s3_prefixes@), a, p) by {
                if p == text {
                    assert(is_export_path(db_path@, texts(s3_prefixes@), i as int, p));
                }
                if before.contains(p) {
                    let a = choose|a: int|
                        a < i && is_export_path(db_path@, texts(s3_prefixes@), a, p);
                    assert(a < i + 1 && is_export_path(db_path@, texts(s3_prefixes@), a, p));
                }
                if exists|a: int|
                    a < i + 1 && is_export_path(db_path@, texts(s3_prefixes@), a, p) {
                    let a = choose|a: int|
                        a < i + 1 && is_export_path(db_path@, texts(s3_prefixes@), a, p);
                    if a < i {
                        assert(before.contains(p));
                    }
                }
            }
        }
        i = i + 1;
    }
    proof {
        assert forall|a: int| 0 <= a < s3_prefixes@.len() implies texts(paths@).contains(
            export_path_text(db_path@, (#[trigger] s3_prefixes@[a])@),
        ) by {
            let path = export_path_text(db_path@, s3_prefixes@[a]@);
            assert(is_export_path(db_path@, texts(s3_prefixes@), a, path));
        }
    }
    paths
}

/// Whether `path` is that of export `i`.
pub open spec fn is_export_path(
    db_path: Seq<char>,
    s3_prefixes: Seq<Seq<char>>,
    i: int,
    path: Seq<char>,
) -> bool {
    0 <= i < s3_prefixes.len() && export_path_text(db_path, s3_prefixes[i]) == path
}

/// Whether there is anything to serve: an export that is configured, or one that
/// was found and restored.
pub fn has_exports(configured: usize, restored: usize) -> (yes: bool)
    ensures
        yes == (configured > 0 || restored > 0),
{
    !(configured == 0 && restored == 0)
}

/// An export, and whether a kernel device is registered for it.
#[derive(Debug)]
pub struct ExportDevice {
    pub name: String,
    pub transport: String,
    pub has_device: bool,
}

/// A device to register: export and transport.
pub type Registration = (String, String);

/// The devices to register: those of the exports that have none, in their order.
pub open spec fn to_register(exports: Seq<ExportDevice>) -> Seq<(Seq<char>, Seq<char>)>
    decreases exports.len(),
{
    if exports.len() == 0 {
        Seq::empty()
    } else {
        let before = to_register(exports.drop_last());
        if exports.last().has_device {
            before
        } else {
            before.push((exports.last().name@, exports.last().transport@))
        }
    }
}

/// Devices that are registered a few at a time.
#[derive(Debug)]
pub struct Registrations {
    queue: Vec<Registration>,
    next: usize,
    in_flight: usize,
}

impl Registrations {
    /// The devices to register.
    pub closed spec fn queue(&self) -> Seq<(Seq<char>, Seq<char>)> {
        self.queue@.map_values(|r: Registration| (r.0@, r.1@))
    }

    /// How many registrations have been started.
    pub closed spec fn started(&self) -> nat {
        self.next as nat
    }

    /// How many registrations are under way.
    pub closed spec fn in_flight(&self) -> nat {
        self.in_flight as nat
    }

    /// No more are under way than have been started and are allowed.
    pub open spec fn wf(&self) -> bool {
        &&& self.in_flight() <= self.started() <= self.queue().len()
        &&& self.in_flight() <= REGISTER_CONCURRENCY
    }

    /// Collects the devices to register.
    pub fn new(exports: &Vec<ExportDevice>) -> (regs: Self)
        ensures
            regs.wf(),
            regs.queue() == to_register(exports@),
            regs.started() == 0,
            regs.in_flight() == 0,
    {
        let mut queue: Vec<Registration> = Vec::new();
        let mut i: usize = 0;
        proof {
            assert(exports@.take(0) =~= Seq::empty());
            assert(queue@.map_values(|r: Registration| (r.0@, r.1@)) =~= Seq::empty());
        }
        while i < exports.len()
            invariant
                i <= exports@.len(),
                queue@.map_values(|r: Registration| (r.0@, r.1@)) == to_register(
                    exports@.take(i as int),
                ),
            decreases exports@.len() - i,
        {
            proof {
                let next = exports@.take(i + 1);
                assert(next.drop_last() =~= exports@.take(i as int));
                assert(next.last() == exports@[i as int]);
            }
            if !exports[i].has_device {
                let ghost before = queue@;
                queue.push((exports[i].name.clone(), exports[i].transport.clone()));
                assert(queue@.map_values(|r: Registration| (r.0@, r.1@)) =~= before.map_values(
                    |r: Registration| (r.0@, r.1@),
                ).push((exports@[i as int].name@, exports@[i as int].transport@)));
            }
            i = i + 1;
        }
        assert(exports@.take(i as int) =~= exports@);
        Registrations { queue, next: 0, in_flight: 0 }
    }

    /// The next device to register, if there is one and not too many are under
    /// way.
    pub fn start(&mut self) -> (device: Option<Registration>)
        requires
            old(self).wf(),
        ensures
            final(self).wf(),
            final(self).queue() == old(self).queue(),
            match device {
                Some(device) => {
                    &&& old(self).started() < old(self).queue().len()
                    &&& old(self).in_flight() < REGISTER_CONCURRENCY
                    &&& (device.0@, device.1@) == old(self).queue()[old(self).started() as int]
                    &&& final(self).started() == old(self).started() + 1
                    &&& final(self).in_flight() == old(self).in_flight() + 1
                },
                None => {
                    &&& old(self).started() == old(self).queue().len() || old(self).in_flight()
                        == REGISTER_CONCURRENCY
                    &&& final(self).started() == old(self).started()
                    &&& final(self).in_flight() == old(self).in_flight()
                },
            },
    {
        if self.in_flight < REGISTER_CONCURRENCY && self.next < self.queue.len() {
            let name: String = self.queue[self.next].0.clone();
            let transport: String = self.queue[self.next].1.clone();
            self.next = self.next + 1;
            self.in_flight = self.in_flight + 1;
            Some((name, transport))
        } else {
            None
        }
    }

    /// Takes in that a registration has ended, well or not.
    pub fn finished(&mut self)
        requires
            old(self).wf(),
            old(self).in_flight() > 0,
        ensures
            final(self).wf(),
            final(self).queue() == old(self).queue(),
            final(self).started() == old(self).started(),
            final(self).in_flight() == old(self).in_flight() - 1,
    {
        self.in_flight = self.in_flight - 1;
    }

    /// Whether every device has been dealt with.
    pub fn is_done(&self) -> (done: bool)
        ensures
            done == (self.started() == self.queue().len() && self.in_flight() == 0),
    {
        self.next == self.queue.len() && self.in_flight == 0
    }
}

/// As long as not every device has been dealt with, there is one to start or one
/// under way: registration does not get stuck.
pub proof fn law_registration_goes_on(regs: Registrations)
    requires
        regs.wf(),
        !(regs.started() == regs.queue().len() && regs.in_flight() == 0),
    ensures
        (regs.started() < regs.queue().len() && regs.in_flight() < REGISTER_CONCURRENCY)
            || regs.in_flight() > 0,
{
}

/// A socket that the server listens on.
#[derive(Debug)]
pub enum ListenerKind {
    /// NBD on a TCP address.
    NbdTcp(String),
    /// NBD on a Unix socket.
    NbdUnix,
    /// The HTTP API.
    HttpApi,
}

/// A socket that the server listens on, with the text of its address.
pub enum Kind {
    NbdTcp(Seq<char>),
    NbdUnix,
    HttpApi,
}

impl View for ListenerKind {
    type V = Kind;

    open spec fn view(&self) -> Kind {
        match self {
            ListenerKind::NbdTcp(address) => Kind::NbdTcp(address@),
            ListenerKind::NbdUnix => Kind::NbdUnix,
            ListenerKind::HttpApi => Kind::HttpApi,
        }
    }
}

impl ListenerKind {
    fn same(&self, other: &ListenerKind) -> (same: bool)
        ensures
            same == (self@ == other@),
    {
        match (self, other) {
            (ListenerKind::NbdTcp(a), ListenerKind::NbdTcp(b)) => *a == *b,
            (ListenerKind::NbdUnix, ListenerKind::NbdUnix) => true,
            (ListenerKind::HttpApi, ListenerKind::HttpApi) => true,
            _ => false,
        }
    }
}

/// The sockets of a list.
pub open spec fn kinds(list: Seq<ListenerKind>) -> Seq<Kind> {
    list.map_values(|k: ListenerKind| k@)
}

/// The sockets that a configuration asks for: the NBD addresses, the NBD socket
/// and the API, in this order.
pub open spec fn listeners_of(
    addresses: Seq<Seq<char>>,
    unix_socket: bool,
    api: bool,
) -> Seq<Kind> {
    addresses.map_values(|a: Seq<char>| Kind::NbdTcp(a)) + (if unix_socket {
        seq![Kind::NbdUnix]
    } else {
        seq![]
    }) + (if api {
        seq![Kind::HttpApi]
    } else {
        seq![]
    })
}

/// The sockets that a configuration asks for.
pub fn plan_listeners(addresses: &Vec<String>, unix_socket: bool, api: bool) -> (list: Vec<
    ListenerKind,
>)
    ensures
        kinds(list@) == listeners_of(texts(addresses@), unix_socket, api),
{
    let mut list: Vec<ListenerKind> = Vec::new();
    let ghost all = texts(addresses@).map_values(|a: Seq<char>| Kind::NbdTcp(a));
    let mut i: usize = 0;
    assert(kinds(list@) =~= all.take(0));
    while i < addresses.len()
        invariant
            i <= addresses@.len(),
            all == texts(addresses@).map_values(|a: Seq<char>| Kind::NbdTcp(a)),
            kinds(list@) == all.take(i as int),
        decreases addresses@.len() - i,
    {
        let ghost before = list@;
        list.push(ListenerKind::NbdTcp(addresses[i].clone()));
        proof {
            assert(kinds(list@) =~= kinds(before).push(Kind::NbdTcp(addresses@[i as int]@)));
            assert(all.take(i + 1) =~= all.take(i as int).push(all[i as int]));
        }
        i = i + 1;
    }
    assert(all.take(i as int) =~= all);
    let ghost before = list@;
    if unix_socket {
        list.push(ListenerKind::NbdUnix);
        assert(kinds(list@) =~= kinds(before).push(Kind::NbdUnix));
    }
    let ghost before = list@;
    if api {
        list.push(ListenerKind::HttpApi);
        assert(kinds(list@) =~= kinds(before).push(Kind::HttpApi));
    }
    assert(kinds(list@) =~= listeners_of(texts(addresses@), unix_socket, api));
    list
}

/// Which of the sockets are taken over from the predecessor: those that it has
/// passed on, each once.
pub open spec fn adopted(list: Seq<Kind>, inherited: Seq<Kind>) -> Seq<bool> {
    Seq::new(
        list.len(),
        |i: int| inherited.contains(list[i]) && !list.take(i).contains(list[i]),
    )
}

fn contains_kind(list: &Vec<ListenerKind>, n: usize, kind: &ListenerKind) -> (yes: bool)
    requires
        n <= list@.len(),
    ensures
        yes == kinds(list@).take(n as int).contains(kind@),
{
    let ghost part = kinds(list@).take(n as int);
    let mut i: usize = 0;
    while i < n
        invariant
            i <= n <= list@.len(),
            part == kinds(list@).take(n as int),
            forall|j: int| 0 <= j < i ==> #[trigger] part[j] != kind@,
        decreases n - i,
    {
        if list[i].same(kind) {
            assert(part[i as int] == kind@);
            return true;
        }
        assert(part[i as int] == list@[i as int]@);
        i = i + 1;
    }
    false
}

/// Which of the sockets are taken over from the predecessor: those that it has
/// passed on, each once. The others are bound.
pub fn adopt_listeners(list: &Vec<ListenerKind>, inherited: &Vec<ListenerKind>) -> (adopt: Vec<
    bool,
>)
    ensures
        adopt@ == adopted(kinds(list@), kinds(inherited@)),
{
    let ghost whole = adopted(kinds(list@), kinds(inherited@));
    assert(kinds(inherited@).take(inherited@.len() as int) =~= kinds(inherited@));
    let mut adopt: Vec<bool> = Vec::new();
    let mut i: usize = 0;
    while i < list.len()
        invariant
            i <= list@.len(),
            whole == adopted(kinds(list@), kinds(inherited@)),
            kinds(inherited@).take(inherited@.len() as int) == kinds(inherited@),
            adopt@ == whole.take(i as int),
        decreases list@.len() - i,
    {
        let passed_on: bool = contains_kind(inherited, inherited.len(), &list[i]);
        let taken: bool = contains_kind(list, i, &list[i]);
        adopt.push(passed_on && !taken);
        proof {
            assert(kinds(list@)[i as int] == list@[i as int]@);
            assert(whole.take(i + 1) =~= whole.take(i as int).push(whole[i as int]));
        }
        i = i + 1;
    }
    assert(whole.take(i as int) =~= whole);
    adopt
}

/// A socket is taken over at most once: of equal sockets, only the first is.
pub proof fn law_sockets_are_adopted_once(list: Seq<Kind>, inherited: Seq<Kind>, i: int, j: int)
    requires
        0 <= i < j < list.len(),
        list[i] == list[j],
    ensures
        !adopted(list, inherited)[j],
{
    assert(list.take(j)[i] == list[i]);
}

/// What the server is told from outside.
#[derive(Debug, Clone, Copy, PartialEq, Eq, Structural)]
pub enum ServerEvent {
    /// SIGINT.
    Interrupt,
    /// SIGTERM.
    Terminate,
    /// SIGUSR1: drain without exiting.
    Drain,
    /// SIGHUP: hand over to a successor.
    Hangup,
    /// A request on the control socket to hand over, or to try to; nothing if the
    /// socket is gone.
    Control(Option<bool>),
}

/// What the server does.
#[derive(Debug, Clone, Copy, PartialEq, Eq, Structural)]
pub enum ServerAction {
    /// Leave the loop and shut down.
    Shutdown,
    /// Drain all exports, and go on.
    Drain,
    /// Hand over to a successor.
    Handoff { dry_run: bool },
    /// Go on.
    Ignore,
}

/// How a handoff ended.
#[derive(Debug, Clone, Copy, PartialEq, Eq, Structural)]
pub enum HandoffEnd {
    /// The successor serves.
    Succeeded,
    /// It was given up, or was only a trial.
    Aborted,
    /// It failed late, and this process serves again.
    Revived,
    /// It failed.
    Failed,
}

/// The signal loop.
#[derive(Debug, Clone, Copy, PartialEq, Eq, Structural)]
pub struct SignalLoop {
    pub handoff_in_progress: bool,
    pub handoff_succeeded: bool,
}

/// What an event makes the server do. One handoff runs at a time.
pub open spec fn answer(handoff_in_progress: bool, event: ServerEvent) -> ServerAction {
    match event {
        ServerEvent::Interrupt => ServerAction::Shutdown,
        ServerEvent::Terminate => ServerAction::Shutdown,
        ServerEvent::Drain => ServerAction::Drain,
        ServerEvent::Hangup => if handoff_in_progress {
            ServerAction::Ignore
        } else {
            ServerAction::Handoff { dry_run: false }
        },
        ServerEvent::Control(Some(dry_run)) => if handoff_in_progress {
            ServerAction::Ignore
        } else {
            ServerAction::Handoff { dry_run }
        },
        ServerEvent::Control(None) => ServerAction::Ignore,
    }
}

impl SignalLoop {
    /// The loop after an event.
    pub open spec fn after(self, event: ServerEvent) -> SignalLoop {
        SignalLoop {
            handoff_in_progress: self.handoff_in_progress || answer(
                self.handoff_in_progress,
                event,
            ) is Handoff,
            ..self
        }
    }

    /// Whether the exports are drained before the process ends: not after a
    /// handoff, as the successor owns their state.
    pub open spec fn drains(self) -> bool {
        !self.handoff_succeeded
    }

    /// Starts the loop.
    pub fn new() -> (state: Self)
        ensures
            state == (SignalLoop { handoff_in_progress: false, handoff_succeeded: false }),
    {
        SignalLoop { handoff_in_progress: false, handoff_succeeded: false }
    }

    /// Answers an event.
    pub fn event(&mut self, event: ServerEvent) -> (action: ServerAction)
        ensures
            action == answer(old(self).handoff_in_progress, event),
            *final(self) == old(self).after(event),
            !old(self).handoff_in_progress ==> match event {
                ServerEvent::Hangup => action == (ServerAction::Handoff { dry_run: false }),
                ServerEvent::Control(Some(dry_run)) => action == (ServerAction::Handoff { dry_run }),
                _ => !(action is Handoff),
            },
            old(self).handoff_in_progress ==> !(action is Handoff),
            final(self).handoff_in_progress == (old(self).handoff_in_progress || action is Handoff),
            final(self).handoff_succeeded == old(self).handoff_succeeded,
    {
        match event {
            ServerEvent::Interrupt => ServerAction::Shutdown,
            ServerEvent::Terminate => ServerAction::Shutdown,
            ServerEvent::Drain => ServerAction::Drain,
            ServerEvent::Hangup => {
                if self.handoff_in_progress {
                    return ServerAction::Ignore;
                }
                self.handoff_in_progress = true;
                ServerAction::Handoff { dry_run: false }
            },
            ServerEvent::Control(Some(dry_run)) => {
                if self.handoff_in_progress {
                    return ServerAction::Ignore;
                }
                self.handoff_in_progress = true;
                ServerAction::Handoff { dry_run }
            },
            ServerEvent::Control(None) => ServerAction::Ignore,
        }
    }

    /// Takes in how a handoff ended. Tells whether to leave the loop: only after a
    /// real handoff that succeeded.
    pub fn dispatch_handoff(&mut self, dry_run: bool, end: HandoffEnd) -> (leave: bool)
        ensures
            leave == (!dry_run && end is Succeeded),
            *final(self) == (SignalLoop {
                handoff_in_progress: false,
                handoff_succeeded: old(self).handoff_succeeded || leave,
            }),
    {
        self.handoff_in_progress = false;
        if !dry_run {
            if let HandoffEnd::Succeeded = end {
                self.handoff_succeeded = true;
                return true;
            }
        }
        false
    }

    /// Whether the exports are drained before the process ends.
    pub fn drains_on_shutdown(&self) -> (drains: bool)
        ensures
            drains == self.drains(),
    {
        !self.handoff_succeeded
    }
}

/// A signal to stop always leads to a shutdown, and to one that drains unless a
/// successor has taken over.
pub proof fn law_stop_drains(state: SignalLoop, event: ServerEvent)
    requires
        event is Interrupt || event is Terminate,
    ensures
        answer(state.handoff_in_progress, event) is Shutdown,
        state.after(event).drains() <==> !state.handoff_succeeded,
        state.after(event) == state,
{
}

/// How a shutdown went.
#[derive(Debug)]
pub enum ShutdownEnd {
    /// Everything ended in time.
    Done,
    /// The drain failed.
    DrainFailed(String),
    /// It took too long.
    TimedOut,
}

/// The text of the error for a shutdown that took too long.
pub open spec fn timeout_text(timeout: Duration) -> Seq<char> {
    "Shutdown timed out after "@ + decimal(timeout.secs as int)
        + "s, exiting with possible dirty blocks"@
}

/// What the process ends with.
pub fn shutdown_result(end: ShutdownEnd, timeout: Duration) -> (result: Result<(), String>)
    ensures
        match end {
            ShutdownEnd::Done => result is Ok,
            ShutdownEnd::DrainFailed(e) => result == Err::<(), String>(e),
            ShutdownEnd::TimedOut => result is Err && result->Err_0@ == timeout_text(timeout),
        },
{
    match end {
        ShutdownEnd::Done => Ok(()),
        ShutdownEnd::DrainFailed(e) => Err(e),
        ShutdownEnd::TimedOut => {
            let mut text = String::from_str("Shutdown timed out after ");
            push_decimal(&mut text, timeout.as_secs());
            text.append("s, exiting with possible dirty blocks");
            Err(text)
        },
    }
}

/// What to do after a try to bind a port.
#[derive(Debug, Clone, Copy, PartialEq, Eq, Structural)]
pub enum BindNext {
    /// The port is free.
    Free,
    /// Try again after so many milliseconds.
    RetryAfter(u64),
    /// It is still in use; go on anyway.
    GiveUp,
}

/// Waiting for a port to become free.
#[derive(Debug)]
pub struct BindRetry {
    pub delay_ms: u64,
}

impl BindRetry {
    /// Before the first try.
    pub fn new() -> (retry: Self)
        ensures
            retry.delay_ms == FIRST_BIND_DELAY_MS,
    {
        BindRetry { delay_ms: FIRST_BIND_DELAY_MS }
    }

    /// Takes in whether the port could be bound, and whether there is time left.
    /// The pauses double up to a limit.
    pub fn tried(&mut self, bound: bool, time_left: bool) -> (next: BindNext)
        requires
            old(self).delay_ms <= MAX_BIND_DELAY_MS,
        ensures
            next == (if bound {
                BindNext::Free
            } else if time_left {
                BindNext::RetryAfter(old(self).delay_ms)
            } else {
                BindNext::GiveUp
            }),
            final(self).delay_ms == if next is RetryAfter {
                next_delay(old(self).delay_ms as int)
            } else {
                old(self).delay_ms as int
            },
            final(self).delay_ms <= MAX_BIND_DELAY_MS,
    {
        if bound {
            return BindNext::Free;
        }
        if !time_left {
            return BindNext::GiveUp;
        }
        let delay: u64 = self.delay_ms;
        self.delay_ms =
        if delay * 2 < MAX_BIND_DELAY_MS {
            delay * 2
        } else {
            MAX_BIND_DELAY_MS
        };
        BindNext::RetryAfter(delay)
    }
}

/// The pause after a pause.
pub open spec fn next_delay(delay: int) -> int {
    if delay * 2 < MAX_BIND_DELAY_MS {
        delay * 2
    } else {
        MAX_BIND_DELAY_MS as int
    }
}

/// How a successor starts to serve once it has taken over.
#[derive(Debug, Clone, Copy, PartialEq, Eq, Structural)]
pub enum SuccessorServe {
    /// With the sockets of its predecessor.
    Adopt,
    /// With sockets of its own, once the predecessor has released this port.
    WaitFor(u16),
    /// With sockets of its own.
    Bind,
}

/// How a successor starts to serve.
pub fn successor_serve(inherited: usize, api_port: Option<u16>) -> (serve: SuccessorServe)
    ensures
        serve == (if inherited > 0 {
            SuccessorServe::Adopt
        } else {
            match api_port {
                Some(port) => SuccessorServe::WaitFor(port),
                None => SuccessorServe::Bind,
            }
        }),
{
    if inherited > 0 {
        return SuccessorServe::Adopt;
    }
    match api_port {
        Some(port) => SuccessorServe::WaitFor(port),
        None => SuccessorServe::Bind,
    }
}

/// The path of the program without the mark that the kernel adds when the file was
/// replaced.
pub open spec fn without_deleted(exe: Seq<char>) -> Seq<char> {
    match before_suffix(exe, " (deleted)"@) {
        Some(path) => path,
        None => exe,
    }
}

/// Resolve the path to use when starting the successor: the path that the program
/// was called by, if it is absolute and exists, else that of the running program.
pub fn successor_binary_path(argv0: Option<String>, is_absolute_and_exists: bool, exe: &str) -> (
    path: String)
    ensures
        path@ == (match argv0 {
            Some(argv0) => if is_absolute_and_exists {
                argv0@
            } else {
                without_deleted(exe@)
            },
            None => without_deleted(exe@),
        }),
{
    if is_absolute_and_exists {
        if let Some(argv0) = argv0 {
            return argv0;
        }
    }
    match strip_suffix(exe, " (deleted)") {
        Some(path) => path,
        None => String::from_str(exe),
    }
}

/// One line of the list of exports.
pub open spec fn export_line_text(
    name: Seq<char>,
    size: u64,
    readonly: bool,
    transport: Seq<char>,
    device: Option<Seq<char>>,
) -> Seq<char> {
    "  - "@ + name + " ("@ + decimal(size as int / GIB as int) + "GB, "@ + (if readonly {
        "readonly"@
    } else {
        "read-write"@
    }) + ", transport="@ + transport + (match device {
        Some(device) => ", device="@ + device,
        None => Seq::empty(),
    }) + ")"@
}

/// One line of the list of exports.
pub fn export_line(
    name: &str,
    size: u64,
    readonly: bool,
    transport: &str,
    device: Option<&str>,
) -> (line: String)
    ensures
        line@ == export_line_text(
            name@,
            size,
            readonly,
            transport@,
            match device {
                Some(device) => Some(device@),
                None => None,
            },
        ),
{
    let mut line = String::from_str("  - ");
    line.append(name);
    line.append(" (");
    push_decimal(&mut line, size / GIB);
    line.append("GB, ");
    if readonly {
        line.append("readonly");
    } else {
        line.append("read-write");
    }
    line.append(", transport=");
    line.append(transport);
    if let Some(device) = device {
        line.append(", device=");
        line.append(device);
    }
    line.append(")");
    assert(line@ =~= export_line_text(
        name@,
        size,
        readonly,
        transport@,
        match device {
            Some(device) => Some(device@),
            None => None,
        },
    ));
    line
}

/// A request to hand over is met as it was made: where no handoff is under way, a
/// request on the control socket starts a trial if it asks for one and a real
/// handoff if it does not, and a hangup starts a real one. From then on a handoff
/// is under way.
pub proof fn law_handoff_is_as_requested(state: SignalLoop, dry_run: bool)
    requires
        !state.handoff_in_progress,
    ensures
        answer(state.handoff_in_progress, ServerEvent::Control(Some(dry_run))) matches
            ServerAction::Handoff { dry_run: trial } && trial == dry_run,
        answer(state.handoff_in_progress, ServerEvent::Hangup) matches ServerAction::Handoff {
            dry_run: trial,
        } && !trial,
        state.after(ServerEvent::Control(Some(dry_run))).handoff_in_progress,
        state.after(ServerEvent::Hangup).handoff_in_progress,
{
}

/// One handoff runs at a time: while one is under way nothing starts another, and
/// whatever starts one, nothing that follows starts another.
pub proof fn law_one_handoff_at_a_time(state: SignalLoop, first: ServerEvent, second: ServerEvent)
    ensures
        state.handoff_in_progress ==> !(answer(state.handoff_in_progress, first) is Handoff)
            && state.after(first).handoff_in_progress,
        answer(state.handoff_in_progress, first) is Handoff ==> !(answer(
            state.after(first).handoff_in_progress,
            second,
        ) is Handoff),
        state.after(first).handoff_succeeded == state.handoff_succeeded,
{
}

/// Draining and a lost control socket neither start a handoff nor end one: the
/// exports are drained whenever that is asked for, and the loss is passed over.
pub proof fn law_loop_goes_on(state: SignalLoop)
    ensures
        answer(state.handoff_in_progress, ServerEvent::Drain) is Drain,
        state.after(ServerEvent::Drain) == state,
        answer(state.handoff_in_progress, ServerEvent::Control(None)) is Ignore,
        state.after(ServerEvent::Control(None)) == state,
        forall|event: ServerEvent|
            answer(state.handoff_in_progress, event) is Shutdown ==> event is Interrupt
                || event is Terminate,
        forall|event: ServerEvent|
            answer(state.handoff_in_progress, event) is Drain ==> event is Drain,
{
}

/// A device is registered for each export that has none, in the order of the
/// exports, and for no other.
pub proof fn law_missing_devices_are_registered(exports: Seq<ExportDevice>)
    ensures
        to_register(exports) == exports.filter(|e: ExportDevice| !e.has_device).map_values(
            |e: ExportDevice| (e.name@, e.transport@),
        ),
    decreases exports.len(),
{
    reveal(Seq::filter);
    let missing = |e: ExportDevice| !e.has_device;
    let pair = |e: ExportDevice| (e.name@, e.transport@);
    if exports.len() > 0 {
        let rest = exports.drop_last();
        law_missing_devices_are_registered(rest);
        assert(to_register(exports) =~= exports.filter(missing).map_values(pair)) by {
            if !exports.last().has_device {
                assert(exports.filter(missing) =~= rest.filter(missing).push(exports.last()));
                assert(exports.filter(missing).map_values(pair) =~= rest.filter(
                    missing,
                ).map_values(pair).push(pair(exports.last())));
            }
        }
    } else {
        assert(to_register(exports) =~= exports.filter(missing).map_values(pair));
    }
}

/// The server listens on each address of the configuration, on the Unix socket and
/// for the API if they are asked for, and on nothing else.
pub proof fn law_listeners_are_as_configured(addresses: Seq<Seq<char>>, unix_socket: bool, api: bool)
    ensures
        ({
            let list = listeners_of(addresses, unix_socket, api);
            &&& list.len() == addresses.len() + (if unix_socket {
                1int
            } else {
                0
            }) + (if api {
                1int
            } else {
                0
            })
            &&& forall|i: int|
                0 <= i < addresses.len() ==> #[trigger] list[i] == Kind::NbdTcp(addresses[i])
            &&& unix_socket ==> list[addresses.len() as int] == Kind::NbdUnix
            &&& api ==> list.last() == Kind::HttpApi
        }),
{
}

/// A socket is taken over exactly if the predecessor has passed it on and no socket
/// before it is the same.
pub proof fn law_sockets_are_adopted(list: Seq<Kind>, inherited: Seq<Kind>, i: int)
    requires
        0 <= i < list.len(),
    ensures
        adopted(list, inherited).len() == list.len(),
        adopted(list, inherited)[i] <==> (exists|k: int|
            0 <= k < inherited.len() && #[trigger] inherited[k] == list[i]) && (forall|j: int|
            0 <= j < i ==> #[trigger] list[j] != list[i]),
{
    if list.take(i).contains(list[i]) {
        let j = choose|j: int| 0 <= j < i && list.take(i)[j] == list[i];
        assert(list[j] == list[i]);
    }
    if exists|j: int| 0 <= j < i && #[trigger] list[j] == list[i] {
        let j = choose|j: int| 0 <= j < i && #[trigger] list[j] == list[i];
        assert(list.take(i)[j] == list[i]);
    }
}

/// The pause after `n` failed tries to bind a port.
pub open spec fn delay_after(n: nat) -> int
    decreases n,
{
    if n == 0 {
        FIRST_BIND_DELAY_MS as int
    } else {
        next_delay(delay_after((n - 1) as nat))
    }
}

/// The pauses between tries to bind a port are 5, 10, 20 and 40 milliseconds, and
/// 50 from then on.
pub proof fn law_pauses_double(n: nat)
    ensures
        delay_after(n) == if n <= 3 {
            5 * pow(2, n)
        } else {
            50
        },
    decreases n,
{
    reveal_with_fuel(pow, 4);
    if n > 0 {
        law_pauses_double((n - 1) as nat);
    }
}

/// The mark of a replaced file is taken off the path of the program, and nothing
/// else.
pub proof fn law_mark_is_taken_off(path: Seq<char>)
    ensures
        without_deleted(path + " (deleted)"@) == path,
        !" (deleted)"@.is_suffix_of(path) ==> without_deleted(path) == path,
{
    let exe = path + " (deleted)"@;
    assert(exe.subrange(path.len() as int, exe.len() as int) =~= " (deleted)"@);
    assert(exe.take(path.len() as int) =~= path);
}

/// A handoff that has ended is no longer under way. The server leaves only after a
/// real handoff to a successor that serves, and once it has been left, nothing is
/// drained: before that, everything is.
pub proof fn law_handoff_ends(state: &mut SignalLoop, dry_run: bool, end: HandoffEnd, leave: bool)
    requires
        call_ensures(SignalLoop::dispatch_handoff, (state, dry_run, end), leave),
    ensures
        !mut_ref_future(state).handoff_in_progress,
        leave <==> !dry_run && end == HandoffEnd::Succeeded,
        leave ==> !mut_ref_future(state).drains(),
        !leave ==> mut_ref_future(state).drains() == mut_ref_current(state).drains(),
        mut_ref_current(state).handoff_succeeded ==> !mut_ref_future(state).drains(),
{
}

/// The devices are started in the order of the queue, none of them twice and none
/// left out; one that has ended makes room for another, and never more than 16 are
/// under way.
pub proof fn law_devices_start_in_order(
    regs: &mut Registrations,
    device: Option<Registration>,
    ended: &mut Registrations,
)
    requires
        mut_ref_current(regs).wf(),
        mut_ref_current(ended).wf(),
        mut_ref_current(ended).in_flight() > 0,
        call_ensures(Registrations::start, (regs,), device),
        call_ensures(Registrations::finished, (ended,), ()),
    ensures
        mut_ref_future(regs).in_flight() <= 16,
        mut_ref_future(regs).queue() == mut_ref_current(regs).queue(),
        device matches Some(d) ==> (d.0@, d.1@) == mut_ref_current(regs).queue()[mut_ref_current(
            regs,
        ).started() as int] && mut_ref_future(regs).started() == mut_ref_current(regs).started()
            + 1 && mut_ref_future(regs).in_flight() == mut_ref_current(regs).in_flight() + 1,
        device is None ==> mut_ref_future(regs).started() == mut_ref_current(regs).started(),
        mut_ref_current(regs).started() < mut_ref_current(regs).queue().len() && mut_ref_current(
            regs,
        ).in_flight() < 16 ==> device is Some,
        mut_ref_future(ended).in_flight() == mut_ref_current(ended).in_flight() - 1,
        mut_ref_future(ended).started() == mut_ref_current(ended).started(),
        mut_ref_future(ended).queue() == mut_ref_current(ended).queue(),
{
}

/// A port that could be bound is free. One that could not is tried again as long as
/// there is time, after the pause that is due, and given up only without time.
pub proof fn law_binding_is_tried(
    retry: &mut BindRetry,
    bound: bool,
    time_left: bool,
    next: BindNext,
)
    requires
        call_ensures(BindRetry::tried, (retry, bound, time_left), next),
        mut_ref_current(retry).delay_ms <= 50,
    ensures
        next is Free <==> bound,
        next is GiveUp <==> !bound && !time_left,
        next matches BindNext::RetryAfter(ms) ==> ms == mut_ref_current(retry).delay_ms,
        next is RetryAfter && mut_ref_current(retry).delay_ms <= 25 ==> mut_ref_future(
            retry,
        ).delay_ms == 2 * mut_ref_current(retry).delay_ms,
        next is RetryAfter && mut_ref_current(retry).delay_ms > 25 ==> mut_ref_future(
            retry,
        ).delay_ms == 50,
        !(next is RetryAfter) ==> mut_ref_future(retry).delay_ms == mut_ref_current(retry).delay_ms,
{
}

/// A line of the list of exports: the name, the size in whole gibibytes, whether it can be
/// written, how it is served, and its device, if it has one.
pub proof fn law_export_line(
    name: &str,
    size: u64,
    readonly: bool,
    transport: &str,
    device: &str,
    with_device: String,
    without: String,
)
    requires
        call_ensures(export_line, (name, size, readonly, transport, Some(device)), with_device),
        call_ensures(export_line, (name, size, readonly, transport, None), without),
    ensures
        without@ == "  - "@ + name@ + " ("@ + decimal(size as int / 1_073_741_824) + (if readonly {
            "GB, readonly"@
        } else {
            "GB, read-write"@
        }) + ", transport="@ + transport@ + ")"@,
        with_device@ == without@.drop_last() + ", device="@ + device@ + ")"@,
{
    reveal_strlit("GB, ");
    reveal_strlit("readonly");
    reveal_strlit("read-write");
    reveal_strlit("GB, readonly");
    reveal_strlit("GB, read-write");
    reveal_strlit(")");
    assert("GB, "@ + "readonly"@ =~= "GB, readonly"@);
    assert("GB, "@ + "read-write"@ =~= "GB, read-write"@);
    assert(without@ =~= "  - "@ + name@ + " ("@ + decimal(size as int / 1_073_741_824) + (
    if readonly {
        "GB, readonly"@
    } else {
        "GB, read-write"@
    }) + ", transport="@ + transport@ + ")"@);
    assert(with_device@ =~= without@.drop_last() + ", device="@ + device@ + ")"@);
}

/// A shutdown that ended in time is no error. The error of a drain is handed on, and one that
/// took too long is an error that says how many seconds it had.
pub proof fn law_shutdown_result(end: ShutdownEnd, timeout: Duration, result: Result<(), String>)
    requires
        call_ensures(shutdown_result, (end, timeout), result),
    ensures
        result is Ok <==> end is Done,
        end matches ShutdownEnd::DrainFailed(e) ==> result == Err::<(), String>(e),
        end is TimedOut ==> result is Err && result->Err_0@ == "Shutdown timed out after "@ + decimal(
            timeout.secs as int,
        ) + "s, exiting with possible dirty blocks"@,
{
}

/// A successor adopts the sockets of its predecessor if it got any; else it waits for the port
/// of the API, if there is one.
pub proof fn law_successor_serves(inherited: usize, api_port: Option<u16>, serve: SuccessorServe)
    requires
        call_ensures(successor_serve, (inherited, api_port), serve),
    ensures
        serve is Adopt <==> inherited > 0,
        inherited == 0 && api_port is Some ==> serve == SuccessorServe::WaitFor(api_port->Some_0),
        inherited == 0 && api_port is None ==> serve is Bind,
{
}

/// A successor is started by the path that this program was called by, where that is of use,
/// and else by the path of its file, though the file was replaced.
pub proof fn law_successor_path(argv0: String, usable: bool, exe: &str, path: String, file: Seq<char>)
    requires
        call_ensures(successor_binary_path, (Some(argv0), usable, exe), path),
        exe@ == file || exe@ == file + " (deleted)"@,
        !" (deleted)"@.is_suffix_of(file),
    ensures
        usable ==> path@ == argv0@,
        !usable ==> path@ == file,
{
    law_mark_is_taken_off(file);
}

/// Every export is warmed, and nothing else, each once.
pub proof fn law_every_export_is_warmed(
    db_path: &str,
    s3_prefixes: Vec<String>,
    paths: Vec<String>,
    i: int,
)
    requires
        call_ensures(prewarm_paths, (db_path, &s3_prefixes), paths),
    ensures
        0 <= i < s3_prefixes@.len() ==> texts(paths@).contains(
            db_path@ + "/exports/"@ + s3_prefixes@[i]@,
        ),
        0 <= i < paths@.len() ==> exists|j: int|
            0 <= j < s3_prefixes@.len() && paths@[i]@ == db_path@ + "/exports/"@ + (
            #[trigger] s3_prefixes@[j])@,
        ascending(texts(paths@)),
{
    if 0 <= i < s3_prefixes@.len() {
        let path = export_path_text(db_path@, s3_prefixes@[i]@);
        assert(is_export_path(db_path@, texts(s3_prefixes@), i, path));
    }
    if 0 <= i < paths@.len() {
        assert(texts(paths@)[i] == paths@[i]@);
        assert(texts(paths@).contains(paths@[i]@));
        let j = choose|j: int|
            is_export_path(db_path@, texts(s3_prefixes@), j, paths@[i]@);
        assert(s3_prefixes@[j]@ == texts(s3_prefixes@)[j]);
    }
}

/// There is something to serve unless nothing is configured and nothing was restored. The
/// devices are dealt with once all were started and none is under way. A server that handed
/// over drains nothing.
pub proof fn law_server_tests(
    configured: usize,
    restored: usize,
    yes: bool,
    regs: Registrations,
    done: bool,
    state: SignalLoop,
    drains: bool,
)
    requires
        call_ensures(has_exports, (configured, restored), yes),
        call_ensures(Registrations::is_done, (&regs,), done),
        call_ensures(SignalLoop::drains_on_shutdown, (&state,), drains),
    ensures
        !yes <==> configured == 0 && restored == 0,
        done <==> regs.started() == regs.queue().len() && regs.in_flight() == 0,
        drains <==> !state.handoff_succeeded,
{
}

/// What the loop does with each event: a signal to stop always stops it, a signal to drain always
/// drains, and a handoff starts, as a trial exactly if one was asked for, unless one is under way.
pub proof fn law_events_are_answered(state: &mut SignalLoop, event: ServerEvent, action: ServerAction)
    requires
        call_ensures(SignalLoop::event, (state, event), action),
    ensures
        ({
            let busy = mut_ref_current(state).handoff_in_progress;
            &&& event is Interrupt || event is Terminate <==> action is Shutdown
            &&& event is Drain <==> action is Drain
            &&& event is Hangup && !busy ==> action == (ServerAction::Handoff { dry_run: false })
            &&& !busy ==> (event matches ServerEvent::Control(Some(asked)) ==> action == (
            ServerAction::Handoff { dry_run: asked }))
            &&& busy && (event is Hangup || event is Control) ==> action is Ignore
            &&& event == ServerEvent::Control(None) ==> action is Ignore
            &&& mut_ref_future(state).handoff_in_progress == (busy || action is Handoff)
            &&& mut_ref_future(state).handoff_succeeded == mut_ref_current(state).handoff_succeeded
        }),
{
}

/// The sockets that the server listens on and those that it takes over are told for the
/// configuration and the predecessor at hand.
pub proof fn law_sockets(
    addresses: Vec<String>,
    unix_socket: bool,
    api: bool,
    list: Vec<ListenerKind>,
    inherited: Vec<ListenerKind>,
    adopt: Vec<bool>,
    i: int,
)
    requires
        call_ensures(plan_listeners, (&addresses, unix_socket, api), list),
        call_ensures(adopt_listeners, (&list, &inherited), adopt),
        0 <= i < list@.len(),
    ensures
        adopt@.len() == list@.len(),
        i < addresses@.len() ==> list@[i]@ == Kind::NbdTcp(addresses@[i]@),
        i >= addresses@.len() ==> (list@[i]@ is NbdUnix && unix_socket) || (list@[i]@ is HttpApi
            && api),
        adopt@[i] ==> exists|k: int|
            0 <= k < inherited@.len() && (#[trigger] inherited@[k])@ == list@[i]@,
        adopt@[i] ==> forall|j: int| 0 <= j < i ==> (#[trigger] list@[j])@ != list@[i]@,
        !adopt@[i] && (forall|j: int| 0 <= j < i ==> (#[trigger] list@[j])@ != list@[i]@)
            ==> forall|k: int| 0 <= k < inherited@.len() ==> (#[trigger] inherited@[k])@ != list@[i]@,
{
    let a = kinds(list@);
    let b = kinds(inherited@);
    law_listeners_are_as_configured(texts(addresses@), unix_socket, api);
    law_sockets_are_adopted(a, b, i);
    assert(a[i] == list@[i]@);
    if i < addresses@.len() {
        assert(texts(addresses@)[i] == addresses@[i]@);
    }
    assert forall|j: int| 0 <= j < i implies #[trigger] a[j] == list@[j]@ by {}
    assert forall|k: int| 0 <= k < inherited@.len() implies #[trigger] b[k] == inherited@[k]@ by {}
    if adopt@[i] {
        let k = choose|k: int| 0 <= k < b.len() && #[trigger] b[k] == a[i];
        assert(inherited@[k]@ == list@[i]@);
        assert forall|j: int| 0 <= j < i implies (#[trigger] list@[j])@ != list@[i]@ by {
            assert(a[j] != a[i]);
        }
    } else if forall|j: int| 0 <= j < i ==> (#[trigger] list@[j])@ != list@[i]@ {
        assert forall|j: int| 0 <= j < i implies #[trigger] a[j] != a[i] by {
            assert(list@[j]@ != list@[i]@);
        }
        assert forall|k: int| 0 <= k < inherited@.len() implies (#[trigger] inherited@[k])@
            != list@[i]@ by {
            assert(b[k] == inherited@[k]@);
        }
    }
}

} // verus!
