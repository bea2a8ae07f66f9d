use cidrwall::config::{
    Config, Direction, Files, Nftables, RuleMapping, Rules, Runtime, Xdp, XdpRule,
};
use cidrwall::daemon::{
    check_flowtables, classify_event, flowtable_verdict, plan, set_up, Daemon, DaemonError,
    Reconciled,
};
use cidrwall::netlink::{
    Acks, Backend, BackendError, DisabledBackend, DumpState, IoFailure, Recorded, Snapshot,
};
use cidrwall::rules::RenderedRule;
use cidrwall::session::{
    perform, removed_on_exit, targets_due, End, Outcome, Report, Session, Target, Targets, Task,
};
use cidrwall::watch::{
    decide_target, same_target, watched_directories, watched_path, Due, Watch, WatchInput,
};
use cidrwall::wire::{DeviceArray, Flowtable, WireError};
use cidrwall::zones::{ZoneValue, Zones};

#[derive(Default)]
struct MemoryBackend {
    active: Option<Snapshot>,
    applies: usize,
    fail_next: bool,
    conflicts: Vec<String>,
    asked: Vec<String>,
}

impl MemoryBackend {
    fn take(&mut self, snapshot: &Snapshot) -> Result<(), BackendError> {
        self.applies += 1;
        if std::mem::take(&mut self.fail_next) {
            return Err(failure(None, "injected batch error"));
        }
        self.active = Some(snapshot.clone());
        Ok(())
    }
}

fn failure(errno: Option<i32>, message: &str) -> BackendError {
    BackendError::Netlink(io_failure(errno, message))
}

fn io_failure(errno: Option<i32>, message: &str) -> IoFailure {
    IoFailure {
        errno,
        message: message.to_owned(),
    }
}

impl Backend for MemoryBackend {
    fn apply(
        &mut self,
        _: &Config,
        _: &Vec<RenderedRule>,
        snapshot: &Snapshot,
    ) -> Result<(), BackendError> {
        self.take(snapshot)
    }

    fn apply_direction(
        &mut self,
        _: &Config,
        _: &Vec<RenderedRule>,
        _: Direction,
        snapshot: &Snapshot,
    ) -> Result<(), BackendError> {
        self.take(snapshot)
    }

    fn flowtable_conflicts(
        &mut self,
        protected: &Vec<String>,
    ) -> Result<Vec<String>, BackendError> {
        self.asked = protected.clone();
        Ok(self.conflicts.clone())
    }
}

fn zones() -> Zones {
    Zones::from_map(vec![(
        "WAN".to_owned(),
        ZoneValue::Interfaces(vec!["eth0".to_owned()]),
    )])
    .unwrap()
}

fn config() -> Config {
    Config {
        files: Files {
            zones: Some("/lists/zones.json".to_owned()),
            inbound: Some("/lists/inbound.txt".to_owned()),
            outbound: Some("/lists/outbound.txt".to_owned()),
        },
        nftables: Nftables::new("cidrwall".to_owned(), -5),
        runtime: Runtime {
            debounce: 500,
            reconcile: 60_000,
        },
        rules: Rules {
            input: vec![RuleMapping {
                blocklist: Direction::Inbound,
                ingress_zones: vec!["WAN".into()],
                egress_zones: vec![],
            }],
            forward: vec![],
            output: vec![],
        },
        xdp: Xdp::default(),
    }
}

fn both_directions() -> Config {
    let mut config = config();
    config.rules.output = vec![RuleMapping {
        blocklist: Direction::Outbound,
        ingress_zones: vec![],
        egress_zones: vec!["WAN".into()],
    }];
    config
}

fn lines(text: &str) -> Vec<String> {
    text.lines().map(str::to_owned).collect()
}

fn snapshot(inbound: &str, outbound: &str) -> Snapshot {
    Snapshot {
        inbound: cidrwall::blocklist::parse(&lines(inbound)).unwrap(),
        outbound: cidrwall::blocklist::parse(&lines(outbound)).unwrap(),
    }
}

#[test]
fn recognizes_atomic_rename_destination() {
    let paths = vec![
        "/lists/.inbound.tmp".to_owned(),
        "/lists/inbound.txt".to_owned(),
    ];
    assert!(classify_event(
        &paths,
        Some(&"/lists/inbound.txt".to_owned()),
        Some(&"/lists/outbound.txt".to_owned())
    )
    .contains(&Direction::Inbound));
}

#[test]
fn failed_batch_does_not_advance_active_snapshot() {
    let inbound = lines("10.0.0.0/8\n");
    let outbound = lines("2001:db8::/32\n");
    let mut daemon = Daemon::new(config(), &zones(), MemoryBackend::default()).unwrap();
    daemon.initial_load(Some(&inbound), Some(&outbound)).unwrap();
    let old = daemon.active().clone();
    daemon.backend_mut().fail_next = true;
    assert!(daemon.reload(Direction::Inbound, &lines("192.0.2.0/24\n")).is_err());
    assert_eq!(*daemon.active(), old);
    assert_eq!(daemon.backend_mut().applies, 2);
    daemon.reload(Direction::Inbound, &lines("192.0.2.0/24\n")).unwrap();
    assert_eq!(*daemon.active(), snapshot("192.0.2.0/24", ""));
}

#[test]
fn a_refused_list_is_not_sent() {
    let mut daemon = Daemon::new(config(), &zones(), MemoryBackend::default()).unwrap();
    daemon.initial_load(Some(&lines("10.0.0.0/8")), None).unwrap();
    let error = daemon.reload(Direction::Inbound, &lines("10.0.0.1/8")).unwrap_err();
    assert!(matches!(&error, DaemonError::Parse { direction: Direction::Inbound, .. }));
    assert!(error
        .message()
        .starts_with("parse /lists/inbound.txt: non-canonical blocklist at line 1"));
    assert_eq!(daemon.backend_mut().applies, 1);
}

#[test]
fn startup_needs_every_list_in_use() {
    let mut daemon = Daemon::new(both_directions(), &zones(), MemoryBackend::default()).unwrap();
    let inbound = lines("10.0.0.0/8");
    let error = daemon.start(Some(&inbound), None, 0).unwrap_err();
    assert!(matches!(error, DaemonError::NotLoaded(Direction::Outbound)));
    assert!(daemon.start(Some(&inbound), Some(&lines("x")), 0).is_err());
    assert_eq!(daemon.backend_mut().applies, 0);
    assert!(matches!(daemon.reconcile(), Ok(Reconciled::Deferred)));
    daemon.backend_mut().fail_next = true;
    assert!(daemon.start(Some(&inbound), Some(&vec![]), 0).is_err());
    assert_eq!(*daemon.active(), Snapshot::default());
    let watch = daemon.start(Some(&inbound), Some(&vec![]), 7).unwrap();
    assert_eq!(
        watch,
        Watch {
            inbound: None,
            outbound: None,
            next_reconcile: 60_007,
        }
    );
    assert_eq!(daemon.backend_mut().active, Some(snapshot("10.0.0.0/8", "")));
    assert!(matches!(daemon.reconcile(), Ok(Reconciled::Applied)));
    daemon.backend_mut().fail_next = true;
    assert!(matches!(daemon.reconcile(), Ok(Reconciled::Failed(_))));
}

#[test]
fn nothing_is_sent_where_no_list_is_in_use() {
    let mut config = config();
    config.rules.input.clear();
    let mut daemon = Daemon::new(config, &zones(), MemoryBackend::default()).unwrap();
    assert!(daemon.start(None, None, 0).is_ok());
    assert!(matches!(daemon.reconcile(), Ok(Reconciled::Unused)));
    assert_eq!(daemon.backend_mut().applies, 0);
}

#[test]
fn flowtables_on_protected_interfaces_stop_the_daemon() {
    let backend = || MemoryBackend {
        conflicts: vec!["eth0".to_owned(), "eth\"1".to_owned()],
        ..MemoryBackend::default()
    };
    let error = Daemon::new(config(), &zones(), backend()).err().unwrap();
    assert_eq!(
        error.message(),
        "flowtable offload uses protected interface(s): {\"eth0\", \"eth\\\"1\"}"
    );
    let mut allowed = config();
    allowed.nftables.allow_flowtable_bypass = true;
    assert!(Daemon::new(allowed, &zones(), backend()).is_ok());
    let mut daemon = Daemon::new(config(), &zones(), MemoryBackend::default()).unwrap();
    assert_eq!(daemon.backend_mut().asked, vec!["eth0"]);
    daemon.backend_mut().conflicts = vec!["eth0".to_owned()];
    assert!(matches!(
        daemon.reconcile(),
        Err(DaemonError::Backend(BackendError::FlowtableBypass(_)))
    ));
}

#[test]
fn an_unknown_zone_is_refused_before_the_backend_is_asked() {
    let empty = Zones::from_map(vec![]).unwrap();
    let error = Daemon::new(config(), &empty, DisabledBackend::new()).err().unwrap();
    assert_eq!(error.message(), "unknown zone \"WAN\"");
    assert!(matches!(
        Daemon::new(config(), &zones(), DisabledBackend::new()),
        Err(DaemonError::Backend(BackendError::Disabled))
    ));
    assert!(check_flowtables(&config(), &mut Recorded::new(DisabledBackend::new()), &vec![]).is_err());
    assert!(flowtable_verdict(Ok(vec![])).is_ok());
}

#[test]
fn events_are_told_apart_by_target() {
    let (inbound, outbound) = ("/lists/inbound.txt".to_owned(), "/lists/outbound.txt".to_owned());
    let classify = |paths: &[&str]| {
        let paths: Vec<String> = paths.iter().map(|path| path.to_string()).collect();
        classify_event(&paths, Some(&inbound), Some(&outbound))
    };
    assert_eq!(classify(&["/lists/other.txt"]), []);
    assert_eq!(classify(&["/lists//outbound.txt"]), [Direction::Outbound]);
    assert_eq!(
        classify(&["/lists/outbound.txt", "/lists/inbound.txt", "/lists/inbound.txt"]),
        [Direction::Inbound, Direction::Outbound]
    );
    assert!(same_target("/a/./b", "/a/b"));
    assert!(!same_target("/a/b", "/c/b"));
    assert!(!same_target("/", "/a"));
    assert!(decide_target(true, false, false) && decide_target(false, true, true));
    assert!(!decide_target(false, true, false) && !decide_target(false, false, true));
}

#[test]
fn only_lists_in_use_are_watched() {
    assert_eq!(watched_path(&config(), Direction::Outbound), None);
    assert_eq!(
        watched_path(&config(), Direction::Inbound).map(String::as_str),
        Some("/lists/inbound.txt")
    );
    assert_eq!(watched_directories(&both_directions()), ["/lists"]);
    let mut apart = both_directions();
    apart.files.outbound = Some("/more/outbound.txt".to_owned());
    assert_eq!(watched_directories(&apart), ["/lists", "/more"]);
    apart.files.inbound = Some("/".to_owned());
    assert_eq!(watched_directories(&apart), ["/more"]);
}

#[test]
fn changes_settle_before_a_reload() {
    let config = both_directions();
    let mut watch = Watch {
        inbound: None,
        outbound: None,
        next_reconcile: 10_000,
    };
    let changed = WatchInput::Changed(vec!["/lists/inbound.txt".to_owned()]);
    let nothing = Due {
        inbound: false,
        outbound: false,
        reconcile: false,
    };
    assert_eq!(watch.step(&config, &changed, 100, 100), Some(nothing));
    assert_eq!(watch.inbound, Some(600));
    assert_eq!(watch.step(&config, &changed, 400, 599), Some(nothing));
    assert_eq!(watch.step(&config, &WatchInput::Idle, 600, 600), Some(nothing));
    assert_eq!(
        watch.step(&config, &WatchInput::Failed, 900, 900),
        Some(Due { inbound: true, ..nothing })
    );
    assert_eq!(watch.step(&config, &WatchInput::Idle, 901, 901), Some(nothing));
    assert_eq!(
        watch.step(&config, &WatchInput::Idle, 10_000, 10_000),
        Some(Due { reconcile: true, ..nothing })
    );
    assert_eq!(watch.next_reconcile, 70_000);
    assert_eq!(watch.step(&config, &WatchInput::Disconnected, 10_001, 10_001), None);
}

#[test]
fn acknowledgements_come_in_order() {
    let mut acks = Acks::new(3, 5);
    assert!(!acks.is_complete());
    assert_eq!(acks.expect(), Ok(3));
    assert_eq!(acks.expect(), Ok(4));
    assert!(acks.is_complete());
    assert_eq!(acks.expect(), Err(WireError::UnexpectedAck));
    assert!(Acks::new(5, 5).is_complete());
}

#[test]
fn conflicts_are_protected_devices() {
    let table = |names: &[&str]| Flowtable {
        devices: DeviceArray::Slots(
            names
                .iter()
                .map(|name| Some(name.as_bytes().to_vec()))
                .chain([None])
                .collect(),
        ),
    };
    let mut state = DumpState::new();
    state.collect(&table(&["wan1", "wan0"])).unwrap();
    state.collect(&table(&["lan0", "wan0"])).unwrap();
    assert!(state.collect(&Flowtable { devices: DeviceArray::Unset }).is_err());
    let protected = vec!["wan2".to_owned(), "wan1".to_owned(), "wan0".to_owned()];
    assert_eq!(state.conflicts(&protected), ["wan0", "wan1"]);
}

#[test]
fn the_backend_is_asked_only_once_the_configuration_holds() {
    let empty = Zones::from_map(vec![]).unwrap();
    let mut backend = Recorded::new(MemoryBackend {
        conflicts: vec!["eth0".to_owned()],
        ..MemoryBackend::default()
    });
    assert!(matches!(
        set_up(&config(), &empty, &mut backend),
        Err(DaemonError::Config(_))
    ));
    assert!(backend.inner().asked.is_empty());
    assert!(plan(&config(), &empty).is_err());
    let (rules, protected) = plan(&config(), &zones()).unwrap();
    assert_eq!((rules.len(), protected), (1, vec!["eth0".to_owned()]));
    assert!(matches!(
        set_up(&config(), &zones(), &mut backend),
        Err(DaemonError::Backend(BackendError::FlowtableBypass(names))) if names == ["eth0"]
    ));
    assert_eq!(backend.inner().asked, ["eth0"]);
}

#[test]
fn the_order_of_paths_does_not_matter() {
    let texts = |names: &[&str]| -> Vec<String> { names.iter().map(|n| n.to_string()).collect() };
    let (inbound, outbound) = ("/lists/in.txt".to_owned(), "/lists/./out.txt".to_owned());
    let one = texts(&["/lists/out.txt", "/other/in.txt", "/lists/in.txt"]);
    let two = texts(&["/lists/in.txt", "/lists/in.txt", "/lists/out.txt", "/other/in.txt"]);
    let both = [Direction::Inbound, Direction::Outbound];
    assert_eq!(classify_event(&one, Some(&inbound), Some(&outbound)), both);
    assert_eq!(classify_event(&two, Some(&inbound), Some(&outbound)), both);
    let elsewhere = texts(&["/other/in.txt", "in.txt"]);
    assert!(classify_event(&elsewhere, Some(&inbound), Some(&outbound)).is_empty());
}

fn watched(input: WatchInput, now: u64) -> Report {
    Report::Watched { input, arrival: now, now }
}

fn xdp_too() -> Config {
    let mut config = both_directions();
    config.xdp.rules = vec![XdpRule {
        blocklist: Direction::Inbound,
        ingress_zones: vec!["WAN".into()],
    }];
    config
}

const INBOUND: Direction = Direction::Inbound;
const OUTBOUND: Direction = Direction::Outbound;

#[test]
fn watching_goes_on_until_a_stop_is_requested() {
    let config = xdp_too();
    let watch = Watch { inbound: Some(10), outbound: Some(10), next_reconcile: 10 };
    let mut session = Session::new(watch);
    assert_eq!(session.step(&config, &watched(WatchInput::Idle, 9)), Task::Wait);
    let reload = |target, direction| Task::Reload { target, direction };
    let first = session.step(&config, &watched(WatchInput::Failed, 10));
    assert_eq!(first, reload(Target::Nftables, INBOUND));
    assert_eq!(session.step(&config, &Report::Refused), reload(Target::Xdp, INBOUND));
    assert_eq!(session.step(&config, &Report::Refused), reload(Target::Nftables, OUTBOUND));
    assert_eq!(session.step(&config, &Report::Refused), Task::Reconcile(Target::Nftables));
    assert_eq!(session.step(&config, &Report::Done), Task::Reconcile(Target::Xdp));
    assert_eq!(session.step(&config, &Report::Refused), Task::Wait);
    for now in 11..100 {
        assert_eq!(session.step(&config, &watched(WatchInput::Idle, now)), Task::Wait);
    }
    assert_eq!(session.step(&config, &Report::StopRequested), Task::Stop(End::Requested));
}

#[test]
fn watching_ends_with_the_watcher_or_a_bypass() {
    let config = config();
    let watch = Watch { inbound: None, outbound: None, next_reconcile: 0 };
    let mut session = Session::new(watch);
    assert_eq!(
        session.step(&config, &watched(WatchInput::Disconnected, 1)),
        Task::Stop(End::WatcherLost)
    );
    let mut session = Session::new(watch);
    assert_eq!(
        session.step(&config, &watched(WatchInput::Idle, 1)),
        Task::Reconcile(Target::Nftables)
    );
    assert_eq!(session.step(&config, &Report::Refused), Task::Stop(End::Bypassed));
}

#[test]
fn tasks_of_the_table_reach_the_backend_and_no_others() {
    let mut daemon = Daemon::new(config(), &zones(), MemoryBackend::default()).unwrap();
    let lists = lines("10.0.0.0/8");
    let reload = |target| Task::Reload { target, direction: INBOUND };
    for task in [
        Task::Stop(End::Requested),
        Task::Wait,
        reload(Target::Xdp),
        Task::Reconcile(Target::Xdp),
    ] {
        let outcome = perform(&mut daemon, task, Some(&lists));
        assert!(matches!(outcome, Outcome::Untouched));
        assert_eq!(outcome.report(), Report::Done);
        assert_eq!(daemon.backend_mut().applies, 0);
    }
    let unread = perform(&mut daemon, reload(Target::Nftables), None);
    assert_eq!(unread.report(), Report::Refused);
    assert_eq!(daemon.backend_mut().applies, 0);
    let reloaded = perform(&mut daemon, reload(Target::Nftables), Some(&lists));
    assert_eq!((reloaded.report(), daemon.backend_mut().applies), (Report::Done, 1));
    let refused = perform(&mut daemon, reload(Target::Nftables), Some(&lines("bad")));
    assert_eq!((refused.report(), daemon.backend_mut().applies), (Report::Refused, 1));
    let reconciled = perform(&mut daemon, Task::Reconcile(Target::Nftables), None);
    assert!(matches!(reconciled, Outcome::Reconciled(Ok(Reconciled::Applied))));
    daemon.backend_mut().conflicts = vec!["eth0".to_owned()];
    let bypassed = perform(&mut daemon, Task::Reconcile(Target::Nftables), None);
    assert_eq!((bypassed.report(), daemon.backend_mut().applies), (Report::Refused, 2));
}

#[test]
fn a_refusing_backend_refuses_every_request() {
    let mut bypassed = config();
    bypassed.nftables.allow_flowtable_bypass = true;
    let mut daemon = Daemon::new(bypassed, &zones(), DisabledBackend::new()).unwrap();
    let lists = lines("10.0.0.0/8");
    let disabled = |error: DaemonError| matches!(error, DaemonError::Backend(BackendError::Disabled));
    assert!(disabled(daemon.reload(INBOUND, &lists).unwrap_err()));
    assert!(disabled(daemon.initial_load(Some(&lists), None).unwrap_err()));
    assert_eq!(*daemon.active(), Snapshot::default());
}

#[test]
fn each_list_goes_to_what_enforces_it() {
    let targets = |nftables, xdp| Targets { nftables, xdp };
    assert_eq!(targets_due(&xdp_too(), INBOUND), targets(true, true));
    assert_eq!(targets_due(&xdp_too(), OUTBOUND), targets(true, false));
    assert_eq!(targets_due(&config(), OUTBOUND), targets(false, false));
    let mut config = config();
    assert_eq!(removed_on_exit(&config), targets(false, false));
    config.nftables.cleanup_on_exit = true;
    config.xdp.cleanup_on_exit = true;
    assert_eq!(removed_on_exit(&config), targets(true, false));
    config.xdp.rules = xdp_too().xdp.rules;
    assert_eq!(removed_on_exit(&config), targets(true, true));
}
