//! The daemon: loading lists, and keeping the firewall in line with them.
use crate::blocklist::Fault;
use crate::blocklist::ParseError;
use crate::blocklist::ParsedBlocklist;
use crate::blocklist::parse;
use crate::config::Config;
use crate::config::ConfigError;
use crate::config::ConfigFault;
use crate::config::Direction;
use crate::config::RuleMapping;
use crate::netlink::Backend;
use crate::netlink::BackendError;
use crate::netlink::Call;
use crate::netlink::Recorded;
use crate::netlink::Snapshot;
use crate::rules::RenderedRule;
use crate::rules::render;
use crate::text::insert_ascending;
use crate::watch::Watch;
use crate::zones::Chain;
use crate::zones::ResolvedRule;
use crate::zones::Zones;
use vstd::prelude::*;
use vstd::string::*;

pub use crate::watch::classify_event;

verus! {

/// Why the daemon cannot start, or could not do what was due.
#[derive(Debug)]
pub enum DaemonError {
    Config(ConfigError),
    /// The content of a list that is in use was not given.
    NotLoaded(Direction),
    Parse { direction: Direction, path: String, error: ParseError },
    Backend(BackendError),
}

/// Why the daemon cannot start, or could not do what was due, over mathematical values.
pub enum DaemonFault {
    Config(ConfigFault),
    NotLoaded(Direction),
    Parse { direction: Direction, path: Seq<char>, fault: Fault },
    Backend(BackendError),
}

impl DaemonFault {
    /// The message that tells a user what went wrong.
    pub open spec fn message(self) -> Seq<char> {
        match self {
            DaemonFault::Config(fault) => fault.message(),
            DaemonFault::NotLoaded(direction) => direction.text() + " blocklist was not read"@,
            DaemonFault::Parse { path, fault, .. } => "parse "@ + path + ": "@ + fault.message(),
            DaemonFault::Backend(error) => error.text(),
        }
    }
}

impl DaemonError {
    pub open spec fn fault(self) -> DaemonFault {
        match self {
            DaemonError::Config(error) => DaemonFault::Config(error.fault()),
            DaemonError::NotLoaded(direction) => DaemonFault::NotLoaded(direction),
            DaemonError::Parse { direction, path, error } => DaemonFault::Parse {
                direction,
                path: path@,
                fault: error.fault(),
            },
            DaemonError::Backend(error) => DaemonFault::Backend(error),
        }
    }

    /// The message that tells a user what went wrong.
    pub fn message(&self) -> (r: String)
        ensures
            r@ == self.fault().message(),
    {
        match self {
            DaemonError::Config(error) => error.message(),
            DaemonError::NotLoaded(direction) => String::from_str(direction.as_str()).concat(
                " blocklist was not read",
            ),
            DaemonError::Parse { direction: _, path, error } => String::from_str("parse ").concat(
                path.as_str(),
            ).concat(": ").concat(error.message().as_str()),
            DaemonError::Backend(error) => error.message(),
        }
    }
}

/// How a reconciliation went.
#[derive(Debug, Clone, PartialEq, Eq)]
pub enum Reconciled {
    /// The table is as it should be.
    Applied,
    /// The table could not be replaced; the one in force is kept.
    Failed(BackendError),
    /// A list that is in use has not been loaded yet.
    Deferred,
    /// No list is in use.
    Unused,
}

/// The interface is on either side of the rule.
pub open spec fn rule_names(rule: RenderedRule, interface: Seq<char>) -> bool {
    ||| rule.ingress matches Some(name) && name@ == interface
    ||| rule.egress matches Some(name) && name@ == interface
}

/// The interface is on either side of some rule.
pub open spec fn rules_name(rules: Seq<RenderedRule>, interface: Seq<char>) -> bool {
    exists|k: int| 0 <= k < rules.len() && rule_names(#[trigger] rules[k], interface)
}

/// The list is the interfaces of the rules: sorted, each once.
pub open spec fn protects(rules: Seq<RenderedRule>, protected: Seq<String>) -> bool {
    &&& crate::text::ascending(protected)
    &&& forall|t: Seq<char>| #[trigger]
        crate::text::has_text(protected, t) <==> rules_name(rules, t)
}

/// The interfaces of the rules.
fn protected_interfaces(rules: &Vec<RenderedRule>) -> (r: Vec<String>)
    ensures
        protects(rules@, r@),
{
    let mut r: Vec<String> = Vec::new();
    let mut i: usize = 0;
    assert(protects(rules@.take(0), r@));
    while i < rules.len()
        invariant
            i <= rules@.len(),
            protects(rules@.take(i as int), r@),
        decreases rules@.len() - i,
    {
        let ghost before = r@;
        let ghost (a, b) = (rules@.take(i as int), rules@.take(i + 1));
        match &rules[i].ingress {
            Some(name) => insert_ascending(&mut r, name),
            None => {},
        }
        match &rules[i].egress {
            Some(name) => insert_ascending(&mut r, name),
            None => {},
        }
        proof {
            assert forall|t: Seq<char>| #[trigger]
                crate::text::has_text(r@, t) <==> rules_name(b, t) by {
                assert(crate::text::has_text(before, t) <==> rules_name(a, t));
                if rules_name(a, t) {
                    let k = choose|k: int| 0 <= k < a.len() && rule_names(#[trigger] a[k], t);
                    assert(b[k] == a[k]);
                }
                if rule_names(rules@[i as int], t) {
                    assert(b[i as int] == rules@[i as int]);
                }
                if rules_name(b, t) {
                    let k = choose|k: int| 0 <= k < b.len() && rule_names(#[trigger] b[k], t);
                    if k < i {
                        assert(a[k] == b[k]);
                    }
                }
            }
        }
        i = i + 1;
    }
    assert(rules@.take(i as int) =~= rules@);
    r
}

/// What an answer about flowtables means: any conflict is an error.
pub fn flowtable_verdict(answer: Result<Vec<String>, BackendError>) -> (r: Result<(), BackendError>)
    ensures
        crate::netlink::refusal(r) == verdict_of(answer),
{
    match answer {
        Err(error) => Err(error),
        Ok(conflicts) => {
            if conflicts.len() == 0 {
                Ok(())
            } else {
                Err(BackendError::FlowtableBypass(conflicts))
            }
        },
    }
}

/// The error that an answer about flowtables amounts to, if any.
pub open spec fn verdict_of(answer: Result<Vec<String>, BackendError>) -> Option<BackendError> {
    match answer {
        Err(error) => Some(error),
        Ok(conflicts) => if conflicts@.len() == 0 {
            None
        } else {
            Some(BackendError::FlowtableBypass(conflicts))
        },
    }
}

/// The backend was asked about flowtables, and this was the answer.
pub open spec fn conflicts_answer(
    before: Seq<Call>,
    after: Seq<Call>,
    protected: Seq<String>,
    answer: Result<Vec<String>, BackendError>,
) -> bool {
    after == before.push(crate::netlink::conflicts_call(protected, answer))
}

/// The backend was asked about flowtables, unless they may bypass the firewall, and its answer
/// amounts to this error.
pub open spec fn flowtables_checked(
    config: Config,
    before: Seq<Call>,
    after: Seq<Call>,
    protected: Seq<String>,
    refusal: Option<BackendError>,
) -> bool {
    if config.nftables.allow_flowtable_bypass {
        refusal is None && after == before
    } else {
        exists|answer: Result<Vec<String>, BackendError>| #[trigger]
            conflicts_answer(before, after, protected, answer) && refusal == verdict_of(answer)
    }
}

/// What a flowtable check on a backend in one state amounts to, and the state it leaves: the backend
/// is left alone where flowtables may bypass the firewall, and otherwise gives the answer.
pub open spec fn flowtables_asked<B: Backend>(
    config: Config,
    before: B,
    after: B,
    protected: Vec<String>,
    refusal: Option<BackendError>,
) -> bool {
    if config.nftables.allow_flowtable_bypass {
        refusal is None && after == before
    } else {
        exists|answer: Result<Vec<String>, BackendError>| #[trigger]
            crate::netlink::conflicts_reported(before, &protected, answer) && refusal
                == verdict_of(answer)
    }
}

/// Asks the backend whether a flowtable bypasses the firewall, unless that is allowed.
pub fn check_flowtables<B: Backend>(
    config: &Config,
    backend: &mut Recorded<B>,
    protected: &Vec<String>,
) -> (r: Result<(), BackendError>)
    ensures
        flowtables_checked(
            *config,
            old(backend).calls(),
            final(backend).calls(),
            protected@,
            crate::netlink::refusal(r),
        ),
        flowtables_asked(
            *config,
            old(backend).backend(),
            final(backend).backend(),
            *protected,
            crate::netlink::refusal(r),
        ),
        !config.nftables.allow_flowtable_bypass ==> exists|
            asked: &mut B,
            answer: Result<Vec<String>, BackendError>,
        |
            *asked == old(backend).backend() && *final(asked) == final(backend).backend()
                && #[trigger] call_ensures(B::flowtable_conflicts, (asked, protected), answer)
                && crate::netlink::refusal(r) == verdict_of(answer),
{
    if config.nftables.allow_flowtable_bypass {
        return Ok(());
    }
    let answer = backend.flowtable_conflicts(protected);
    let ghost given = answer;
    let r = flowtable_verdict(answer);
    assert(crate::netlink::conflicts_reported(old(backend).backend(), protected, given));
    assert(conflicts_answer(old(backend).calls(), backend.calls(), protected@, given));
    r
}

/// The rules are those that the configuration's mappings amount to, and the list is their
/// interfaces.
pub open spec fn planned(
    config: Config,
    zones: Zones,
    rules: Seq<RenderedRule>,
    protected: Seq<String>,
) -> bool {
    &&& config.rules_fault(zones) is None
    &&& exists|resolved: Seq<ResolvedRule>| #[trigger]
        crate::zones::all_resolve(zones.zones(), crate::zones::mappings(config.rules), resolved)
            && rules == crate::rules::rendered(resolved)
    &&& protects(rules, protected)
}

/// Resolves the mappings and renders the rules: the rules, and the interfaces that they protect.
/// No backend takes part in this.
pub fn plan(config: &Config, zones: &Zones) -> (r: Result<
    (Vec<RenderedRule>, Vec<String>),
    ConfigError,
>)
    ensures
        match r {
            Ok((rules, protected)) => planned(*config, *zones, rules@, protected@),
            Err(error) => config.rules_fault(*zones) == Some(error.fault()),
        },
{
    let resolved = match config.resolve_rules(zones) {
        Ok(resolved) => resolved,
        Err(error) => {
            return Err(error);
        },
    };
    let rules = render(&resolved);
    let protected = protected_interfaces(&rules);
    assert(crate::zones::all_resolve(
        zones.zones(),
        crate::zones::mappings(config.rules),
        resolved@,
    ));
    Ok((rules, protected))
}

/// The rules cannot be put into force: the backend, asked about flowtables with the interfaces of
/// the rules, gave an answer that amounts to this error.
pub open spec fn flowtables_refused<B: Backend>(
    config: Config,
    zones: Zones,
    backend: B,
    after: B,
    rules: Seq<RenderedRule>,
    protected: Vec<String>,
    error: BackendError,
) -> bool {
    &&& planned(config, zones, rules, protected@)
    &&& flowtables_asked(config, backend, after, protected, Some(error))
}

/// Plans the rules and asks whether a flowtable bypasses them. A configuration that cannot be
/// used is refused before the backend is asked anything.
pub fn set_up<B: Backend>(config: &Config, zones: &Zones, backend: &mut Recorded<B>) -> (r: Result<
    (Vec<RenderedRule>, Vec<String>),
    DaemonError,
>)
    ensures
        match r {
            Ok((rules, protected)) => {
                &&& planned(*config, *zones, rules@, protected@)
                &&& flowtables_checked(
                    *config,
                    old(backend).calls(),
                    final(backend).calls(),
                    protected@,
                    None,
                )
                &&& flowtables_asked(
                    *config,
                    old(backend).backend(),
                    final(backend).backend(),
                    protected,
                    None,
                )
            },
            Err(DaemonError::Config(error)) => {
                &&& config.rules_fault(*zones) == Some(error.fault())
                &&& final(backend).backend() == old(backend).backend()
                &&& final(backend).calls() == old(backend).calls()
            },
            Err(DaemonError::Backend(error)) => exists|
                rules: Seq<RenderedRule>,
                protected: Vec<String>,
            |
                {
                    &&& #[trigger] flowtables_refused(
                        *config,
                        *zones,
                        old(backend).backend(),
                        final(backend).backend(),
                        rules,
                        protected,
                        error,
                    )
                    &&& flowtables_checked(
                        *config,
                        old(backend).calls(),
                        final(backend).calls(),
                        protected@,
                        Some(error),
                    )
                },
            Err(_) => false,
        },
        config.rules_fault(*zones) is None && !config.nftables.allow_flowtable_bypass ==> exists|
            asked: &mut B,
            protected: Vec<String>,
            answer: Result<Vec<String>, BackendError>,
        |
            *asked == old(backend).backend() && *final(asked) == final(backend).backend()
                && #[trigger] call_ensures(B::flowtable_conflicts, (asked, &protected), answer)
                && (r is Ok <==> verdict_of(answer) is None),
{
    let (rules, protected) = match plan(config, zones) {
        Ok(parts) => parts,
        Err(error) => {
            return Err(DaemonError::Config(error));
        },
    };
    match check_flowtables(config, backend, &protected) {
        Ok(()) => Ok((rules, protected)),
        Err(error) => {
            assert(flowtables_refused(
                *config,
                *zones,
                old(backend).backend(),
                backend.backend(),
                rules@,
                protected,
                error,
            ));
            Err(DaemonError::Backend(error))
        },
    }
}

/// The daemon.
pub struct Daemon<B> {
    config: Config,
    rules: Vec<RenderedRule>,
    protected: Vec<String>,
    inbound_known: bool,
    outbound_known: bool,
    snapshot: Snapshot,
    backend: Recorded<B>,
}

/// What the lines of a list amount to.
pub open spec fn read_of(lines: Seq<String>) -> crate::blocklist::Reading {
    crate::blocklist::reading(crate::blocklist::line_texts(lines))
}

/// The path of a list. (Content can be given for a list without one.)
pub open spec fn list_path(config: Config, direction: Direction) -> Seq<char> {
    match config.path_of(direction) {
        Some(path) => path@,
        None => direction.text() + " blocklist"@,
    }
}

fn path_text(config: &Config, direction: Direction) -> (r: String)
    ensures
        r@ == list_path(*config, direction),
{
    match config.blocklist_path(direction) {
        Some(path) => path.clone(),
        None => String::from_str(direction.as_str()).concat(" blocklist"),
    }
}

/// Why the content of a list cannot be used.
pub open spec fn parse_fault(config: Config, direction: Direction, fault: Fault) -> DaemonFault {
    DaemonFault::Parse { direction, path: list_path(config, direction), fault }
}

/// Why the content given for a list cannot be used, if it cannot. A list that is not in use is not
/// looked at.
pub open spec fn load_fault(
    config: Config,
    direction: Direction,
    lines: Option<&Vec<String>>,
) -> Option<DaemonFault> {
    if !config.rules.uses(direction) {
        None
    } else {
        match lines {
            None => Some(DaemonFault::NotLoaded(direction)),
            Some(lines) => match read_of(lines@).fault {
                None => None,
                Some(fault) => Some(parse_fault(config, direction, fault)),
            },
        }
    }
}

/// The first reason why the lists cannot be used, inbound before outbound.
pub open spec fn loads_fault(
    config: Config,
    inbound: Option<&Vec<String>>,
    outbound: Option<&Vec<String>>,
) -> Option<DaemonFault> {
    match load_fault(config, Direction::Inbound, inbound) {
        Some(fault) => Some(fault),
        None => load_fault(config, Direction::Outbound, outbound),
    }
}

/// The content of a list after a load: the entries given for it where it is in use, and otherwise
/// what it was.
pub open spec fn loaded(
    config: Config,
    direction: Direction,
    lines: Option<&Vec<String>>,
    before: ParsedBlocklist,
    after: ParsedBlocklist,
) -> bool {
    if config.rules.uses(direction) {
        lines matches Some(lines) && after.lists(read_of(lines@).nets)
    } else {
        after == before
    }
}

/// The snapshot with one list replaced.
pub open spec fn with_list(
    snapshot: Snapshot,
    direction: Direction,
    list: ParsedBlocklist,
) -> Snapshot {
    match direction {
        Direction::Inbound => Snapshot { inbound: list, outbound: snapshot.outbound },
        Direction::Outbound => Snapshot { inbound: snapshot.inbound, outbound: list },
    }
}

/// The content of both lists after a load.
pub open spec fn both_loaded(
    config: Config,
    inbound: Option<&Vec<String>>,
    outbound: Option<&Vec<String>>,
    before: Snapshot,
    after: Snapshot,
) -> bool {
    &&& loaded(config, Direction::Inbound, inbound, before.inbound, after.inbound)
    &&& loaded(config, Direction::Outbound, outbound, before.outbound, after.outbound)
}

/// A first load gets as far as the backend: every list in use can be used, and some list is.
pub open spec fn lists_are_sent(
    config: Config,
    inbound: Option<&Vec<String>>,
    outbound: Option<&Vec<String>>,
) -> bool {
    &&& loads_fault(config, inbound, outbound) is None
    &&& config.rules.uses(Direction::Inbound) || config.rules.uses(Direction::Outbound)
}

/// What the backend answered is what the daemon returns.
pub open spec fn answered(r: Result<(), DaemonError>, answer: Result<(), BackendError>) -> bool {
    match answer {
        Ok(()) => r is Ok,
        Err(error) => r == Err::<(), DaemonError>(DaemonError::Backend(error)),
    }
}

/// The list is short enough to count its lines.
pub open spec fn countable(lines: Option<&Vec<String>>) -> bool {
    lines matches Some(lines) ==> lines@.len() + 1 < usize::MAX / 2
}

impl<B: Backend> Daemon<B> {
    pub closed spec fn config(self) -> Config {
        self.config
    }

    /// The rules in force.
    pub closed spec fn rules(self) -> Seq<RenderedRule> {
        self.rules@
    }

    /// The interfaces that no flowtable may use.
    pub closed spec fn protected(self) -> Seq<String> {
        self.protected@
    }

    /// The list has been loaded.
    pub closed spec fn known(self, direction: Direction) -> bool {
        match direction {
            Direction::Inbound => self.inbound_known,
            Direction::Outbound => self.outbound_known,
        }
    }

    /// The content of the lists in force.
    pub closed spec fn snapshot(self) -> Snapshot {
        self.snapshot
    }

    /// What the backend was asked so far.
    pub closed spec fn calls(self) -> Seq<Call> {
        self.backend.calls()
    }

    /// The backend as it stands.
    pub closed spec fn backend(self) -> B {
        self.backend.backend()
    }

    /// What never changes once the daemon is set up.
    pub open spec fn same_setup(self, other: Self) -> bool {
        &&& self.config() == other.config()
        &&& self.rules() == other.rules()
        &&& self.protected() == other.protected()
    }

    /// Nothing that was loaded changed.
    pub open spec fn same_lists(self, other: Self) -> bool {
        &&& self.snapshot() == other.snapshot()
        &&& forall|direction: Direction| #[trigger]
            self.known(direction) == other.known(direction)
    }

    /// Every list in use has been loaded.
    pub open spec fn ready(self) -> bool {
        forall|direction: Direction|
            self.config().rules.uses(direction) ==> #[trigger] self.known(direction)
    }

    /// Sets the daemon up: resolves the mappings, renders the rules, and asks whether a flowtable
    /// bypasses them.
    pub fn new(config: Config, zones: &Zones, backend: B) -> (r: Result<Self, DaemonError>)
        ensures
            match r {
                Ok(daemon) => {
                    &&& daemon.config() == config
                    &&& planned(config, *zones, daemon.rules(), daemon.protected())
                    &&& !daemon.known(Direction::Inbound)
                    &&& !daemon.known(Direction::Outbound)
                    &&& daemon.snapshot().inbound.lists(Seq::empty())
                    &&& daemon.snapshot().outbound.lists(Seq::empty())
                    &&& flowtables_checked(
                        config,
                        Seq::empty(),
                        daemon.calls(),
                        daemon.protected(),
                        None,
                    )
                    &&& exists|protected: Vec<String>|
                        protected@ == daemon.protected() && #[trigger] flowtables_asked(
                            config,
                            backend,
                            daemon.backend(),
                            protected,
                            None,
                        )
                },
                Err(DaemonError::Config(error)) => config.rules_fault(*zones) == Some(
                    error.fault(),
                ),
                Err(DaemonError::Backend(error)) => exists|
                    after: B,
                    rules: Seq<RenderedRule>,
                    protected: Vec<String>,
                | #[trigger]
                    flowtables_refused(config, *zones, backend, after, rules, protected, error),
                Err(_) => false,
            },
            r matches Ok(daemon) ==> !config.nftables.allow_flowtable_bypass ==> exists|
                asked: &mut B,
                protected: Vec<String>,
                answer: Result<Vec<String>, BackendError>,
            |
                *asked == backend && *final(asked) == daemon.backend()
                    && #[trigger] call_ensures(B::flowtable_conflicts, (asked, &protected), answer)
                    && verdict_of(answer) is None,
    {
        let ghost given = backend;
        let mut backend = Recorded::new(backend);
        let (rules, protected) = match set_up(&config, zones, &mut backend) {
            Ok(parts) => parts,
            Err(error) => {
                return Err(error);
            },
        };
        let ghost interfaces = protected;
        let daemon = Daemon {
            config,
            rules,
            protected,
            inbound_known: false,
            outbound_known: false,
            snapshot: Snapshot::default(),
            backend,
        };
        assert(flowtables_asked(config, given, daemon.backend(), interfaces, None));
        Ok(daemon)
    }

    /// Loads the lists in use for the first time and puts the whole table into force.
    ///
    /// Where a list cannot be used nothing is sent and nothing changes, and where the backend
    /// refuses, nothing changes.
    pub fn initial_load(
        &mut self,
        inbound: Option<&Vec<String>>,
        outbound: Option<&Vec<String>>,
    ) -> (r: Result<(), DaemonError>)
        requires
            countable(inbound),
            countable(outbound),
        ensures
            final(self).same_setup(*old(self)),
            initial_load_ends(*old(self), *final(self), inbound, outbound, r),
            if lists_are_sent(old(self).config(), inbound, outbound) {
                exists|
                    asked: &mut B,
                    rules: Vec<RenderedRule>,
                    candidate: Snapshot,
                    answer: Result<(), BackendError>,
                |
                    {
                        &&& *asked == old(self).backend()
                        &&& *final(asked) == final(self).backend()
                        &&& #[trigger] call_ensures(
                            B::apply,
                            (asked, &old(self).config(), &rules, &candidate),
                            answer,
                        )
                        &&& rules@ == old(self).rules()
                        &&& both_loaded(
                            old(self).config(),
                            inbound,
                            outbound,
                            old(self).snapshot(),
                            candidate,
                        )
                        &&& answered(r, answer)
                        &&& answer is Ok ==> final(self).snapshot() == candidate
                    }
            } else {
                final(self).backend() == old(self).backend()
            },
    {
        let ghost before = *self;
        let first = match self.read(Direction::Inbound, inbound) {
            Ok(first) => first,
            Err(error) => {
                return Err(error);
            },
        };
        let second = match self.read(Direction::Outbound, outbound) {
            Ok(second) => second,
            Err(error) => {
                return Err(error);
            },
        };
        let uses_inbound = self.config.uses(Direction::Inbound);
        let uses_outbound = self.config.uses(Direction::Outbound);
        if !uses_inbound && !uses_outbound {
            return Ok(());
        }
        let mut first = first;
        let mut second = second;
        self.exchange(Direction::Inbound, &mut first);
        self.exchange(Direction::Outbound, &mut second);
        let ghost candidate = self.snapshot;
        let outcome = self.backend.apply(&self.config, &self.rules, &self.snapshot);
        let ghost refusal = crate::netlink::refusal(outcome);
        proof {
            assert(loaded(
                before.config(),
                Direction::Inbound,
                inbound,
                before.snapshot().inbound,
                candidate.inbound,
            ));
            assert(loaded(
                before.config(),
                Direction::Outbound,
                outbound,
                before.snapshot().outbound,
                candidate.outbound,
            ));
        }
        match outcome {
            Ok(()) => {
                self.inbound_known = self.inbound_known || uses_inbound;
                self.outbound_known = self.outbound_known || uses_outbound;
                assert(initial_call(before, *self, candidate, refusal));
                Ok(())
            },
            Err(error) => {
                self.exchange(Direction::Inbound, &mut first);
                self.exchange(Direction::Outbound, &mut second);
                assert(initial_call(before, *self, candidate, refusal));
                Err(DaemonError::Backend(error))
            },
        }
    }

    /// Swaps a list of the snapshot for another, if there is one.
    fn exchange(&mut self, direction: Direction, list: &mut Option<ParsedBlocklist>)
        ensures
            final(self).same_setup(*old(self)),
            final(self).rules == old(self).rules,
            final(self).backend() == old(self).backend(),
            final(self).calls() == old(self).calls(),
            final(self).known(Direction::Inbound) == old(self).known(Direction::Inbound),
            final(self).known(Direction::Outbound) == old(self).known(Direction::Outbound),
            match *old(list) {
                None => final(self).snapshot() == old(self).snapshot() && *final(list) is None,
                Some(new) => final(self).snapshot() == with_list(
                    old(self).snapshot(),
                    direction,
                    new,
                ) && *final(list) == Some(old(self).snapshot().list(direction)),
            },
    {
        match list {
            None => {},
            Some(new) => {
                match direction {
                    Direction::Inbound => std::mem::swap(&mut self.snapshot.inbound, new),
                    Direction::Outbound => std::mem::swap(&mut self.snapshot.outbound, new),
                }
            },
        }
    }

    /// Reads the content given for a list, if the list is in use.
    fn read(&self, direction: Direction, lines: Option<&Vec<String>>) -> (r: Result<
        Option<ParsedBlocklist>,
        DaemonError,
    >)
        requires
            countable(lines),
        ensures
            match load_fault(self.config(), direction, lines) {
                Some(fault) => r matches Err(error) && error.fault() == fault,
                None => if self.config().rules.uses(direction) {
                    &&& r matches Ok(Some(list))
                    &&& lines matches Some(lines) && list.lists(read_of(lines@).nets)
                } else {
                    r == Ok::<Option<ParsedBlocklist>, DaemonError>(None)
                },
            },
    {
        if !self.config.uses(direction) {
            return Ok(None);
        }
        match lines {
            None => Err(DaemonError::NotLoaded(direction)),
            Some(lines) => match parse(lines) {
                Ok(list) => Ok(Some(list)),
                Err(error) => Err(
                    DaemonError::Parse {
                        direction,
                        path: path_text(&self.config, direction),
                        error,
                    },
                ),
            },
        }
    }

    /// Replaces one list.
    ///
    /// Where the list cannot be used nothing is sent and nothing changes; where the backend
    /// refuses, the active lists stay as they were.
    pub fn reload(&mut self, direction: Direction, lines: &Vec<String>) -> (r: Result<
        (),
        DaemonError,
    >)
        requires
            lines@.len() + 1 < usize::MAX / 2,
        ensures
            final(self).same_setup(*old(self)),
            reload_ends(*old(self), *final(self), direction, lines@, r),
            if read_of(lines@).fault is None {
                exists|
                    asked: &mut B,
                    rules: Vec<RenderedRule>,
                    list: ParsedBlocklist,
                    answer: Result<(), BackendError>,
                |
                    {
                        &&& *asked == old(self).backend()
                        &&& *final(asked) == final(self).backend()
                        &&& #[trigger] call_ensures(
                            B::apply_direction,
                            (
                                asked,
                                &old(self).config(),
                                &rules,
                                direction,
                                &with_list(old(self).snapshot(), direction, list),
                            ),
                            answer,
                        )
                        &&& rules@ == old(self).rules()
                        &&& list.lists(read_of(lines@).nets)
                        &&& answered(r, answer)
                        &&& answer is Ok ==> final(self).snapshot() == with_list(
                            old(self).snapshot(),
                            direction,
                            list,
                        )
                    }
            } else {
                final(self).backend() == old(self).backend()
            },
    {
        let ghost before = *self;
        let parsed = match parse(lines) {
            Ok(parsed) => parsed,
            Err(error) => {
                return Err(
                    DaemonError::Parse {
                        direction,
                        path: path_text(&self.config, direction),
                        error,
                    },
                );
            },
        };
        let ghost list = parsed;
        let mut parsed = Some(parsed);
        self.exchange(direction, &mut parsed);
        let ghost candidate = self.snapshot;
        let outcome = self.backend.apply_direction(
            &self.config,
            &self.rules,
            direction,
            &self.snapshot,
        );
        let ghost refusal = crate::netlink::refusal(outcome);
        assert(candidate == with_list(before.snapshot(), direction, list));
        match outcome {
            Ok(()) => {
                match direction {
                    Direction::Inbound => {
                        self.inbound_known = true;
                    },
                    Direction::Outbound => {
                        self.outbound_known = true;
                    },
                }
                assert(reload_call(before, *self, direction, list, refusal));
                Ok(())
            },
            Err(error) => {
                self.exchange(direction, &mut parsed);
                assert(reload_call(before, *self, direction, list, refusal));
                Err(DaemonError::Backend(error))
            },
        }
    }

    /// Starts: loads the lists, and sets the first reconciliation.
    pub fn start(
        &mut self,
        inbound: Option<&Vec<String>>,
        outbound: Option<&Vec<String>>,
        now: u64,
    ) -> (r: Result<Watch, DaemonError>)
        requires
            countable(inbound),
            countable(outbound),
            now + old(self).config().runtime.reconcile <= u64::MAX,
        ensures
            final(self).same_setup(*old(self)),
            if lists_are_sent(old(self).config(), inbound, outbound) {
                exists|
                    asked: &mut B,
                    rules: Vec<RenderedRule>,
                    candidate: Snapshot,
                    answer: Result<(), BackendError>,
                |
                    {
                        &&& *asked == old(self).backend()
                        &&& *final(asked) == final(self).backend()
                        &&& #[trigger] call_ensures(
                            B::apply,
                            (asked, &old(self).config(), &rules, &candidate),
                            answer,
                        )
                        &&& rules@ == old(self).rules()
                        &&& both_loaded(
                            old(self).config(),
                            inbound,
                            outbound,
                            old(self).snapshot(),
                            candidate,
                        )
                        &&& match answer {
                            Ok(()) => r is Ok && final(self).snapshot() == candidate,
                            Err(error) => r == Err::<Watch, DaemonError>(
                                DaemonError::Backend(error),
                            ),
                        }
                    }
            } else {
                final(self).backend() == old(self).backend()
            },
            match r {
                Ok(watch) => {
                    &&& initial_load_ends(*old(self), *final(self), inbound, outbound, Ok(()))
                    &&& watch.inbound is None
                    &&& watch.outbound is None
                    &&& watch.next_reconcile == now + old(self).config().runtime.reconcile
                    &&& final(self).ready()
                },
                Err(error) => initial_load_ends(
                    *old(self),
                    *final(self),
                    inbound,
                    outbound,
                    Err(error),
                ),
            },
    {
        match self.initial_load(inbound, outbound) {
            Ok(()) => {},
            Err(error) => {
                return Err(error);
            },
        }
        Ok(
            Watch {
                inbound: None,
                outbound: None,
                next_reconcile: now + self.config.runtime.reconcile,
            },
        )
    }

    /// Puts the whole table back in place, once every list in use has been loaded. A flowtable
    /// that bypasses the firewall is an error; a table that cannot be replaced is not.
    pub fn reconcile(&mut self) -> (r: Result<Reconciled, DaemonError>)
        ensures
            final(self).same_setup(*old(self)),
            final(self).same_lists(*old(self)),
            exists|between: Seq<Call>| #[trigger]
                reconcile_ends(*old(self), between, *final(self), r),
            exists|middle: B, protected: Vec<String>|
                {
                    &&& #[trigger] flowtables_asked(
                        old(self).config(),
                        old(self).backend(),
                        middle,
                        protected,
                        check_refusal(r),
                    )
                    &&& protected@ == old(self).protected()
                    &&& !old(self).config().nftables.allow_flowtable_bypass ==> exists|
                        asked: &mut B,
                        answer: Result<Vec<String>, BackendError>,
                    |
                        *asked == old(self).backend() && *final(asked) == middle
                            && #[trigger] call_ensures(
                            B::flowtable_conflicts,
                            (asked, &protected),
                            answer,
                        ) && check_refusal(r) == verdict_of(answer)
                    &&& match r {
                        Ok(Reconciled::Applied) | Ok(Reconciled::Failed(_)) => exists|
                            asked: &mut B,
                            rules: Vec<RenderedRule>,
                            answer: Result<(), BackendError>,
                        |
                            *asked == middle && *final(asked) == final(self).backend()
                                && #[trigger] call_ensures(
                                B::apply,
                                (asked, &old(self).config(), &rules, &old(self).snapshot()),
                                answer,
                            ) && rules@ == old(self).rules() && crate::netlink::refusal(answer)
                                == table_refusal(r),
                        _ => final(self).backend() == middle,
                    }
                },
    {
        let ghost before = *self;
        match check_flowtables(&self.config, &mut self.backend, &self.protected) {
            Ok(()) => {},
            Err(error) => {
                assert(flowtables_asked(
                    before.config(),
                    before.backend(),
                    self.backend(),
                    before.protected,
                    check_refusal(Err(DaemonError::Backend(error))),
                ));
                assert(reconcile_ends(
                    before,
                    self.calls(),
                    *self,
                    Err(DaemonError::Backend(error)),
                ));
                return Err(DaemonError::Backend(error));
            },
        }
        let ghost between = self.calls();
        let ghost middle = self.backend();
        assert(flowtables_asked(
            before.config(),
            before.backend(),
            middle,
            before.protected,
            None,
        ));
        let uses_inbound = self.config.uses(Direction::Inbound);
        let uses_outbound = self.config.uses(Direction::Outbound);
        if !uses_inbound && !uses_outbound {
            assert(reconcile_ends(before, between, *self, Ok(Reconciled::Unused)));
            return Ok(Reconciled::Unused);
        }
        if (uses_inbound && !self.inbound_known) || (uses_outbound && !self.outbound_known) {
            proof {
                if uses_inbound && !self.inbound_known {
                    assert(!before.known(Direction::Inbound));
                } else {
                    assert(!before.known(Direction::Outbound));
                }
                assert(reconcile_ends(before, between, *self, Ok(Reconciled::Deferred)));
            }
            return Ok(Reconciled::Deferred);
        }
        let outcome = self.backend.apply(&self.config, &self.rules, &self.snapshot);
        let r = match outcome {
            Ok(()) => Ok(Reconciled::Applied),
            Err(error) => Ok(Reconciled::Failed(error)),
        };
        assert(reconcile_call(
            before,
            between,
            *self,
            crate::netlink::refusal(outcome),
        ));
        assert(reconcile_ends(before, between, *self, r));
        r
    }

    /// The content of the lists in force.
    pub fn active(&self) -> (r: &Snapshot)
        ensures
            *r == self.snapshot(),
    {
        &self.snapshot
    }

    /// The backend itself. What is done to it directly is not recorded, only that it was handed
    /// out.
    pub fn backend_mut(&mut self) -> (r: &mut B)
        ensures
            *r == old(self).backend(),
            final(self).backend() == *final(r),
            final(self).same_setup(*old(self)),
            final(self).same_lists(*old(self)),
            final(self).calls() == old(self).calls().push(Call::Direct),
    {
        self.backend.inner()
    }
}

/// The backend was asked once, to replace the table by this snapshot, and gave this answer.
pub open spec fn initial_call<B: Backend>(
    before: Daemon<B>,
    after: Daemon<B>,
    candidate: Snapshot,
    refusal: Option<BackendError>,
) -> bool {
    after.calls() == before.calls().push(
        crate::netlink::apply_call(before.config(), before.rules(), candidate, refusal),
    )
}

/// How a first load ends.
pub open spec fn initial_load_ends<B: Backend>(
    before: Daemon<B>,
    after: Daemon<B>,
    inbound: Option<&Vec<String>>,
    outbound: Option<&Vec<String>>,
    r: Result<(), DaemonError>,
) -> bool {
    let config = before.config();
    if loads_fault(config, inbound, outbound) is Some {
        &&& r matches Err(error) && loads_fault(config, inbound, outbound) == Some(error.fault())
        &&& after.same_lists(before)
        &&& after.calls() == before.calls()
    } else if !config.rules.uses(Direction::Inbound) && !config.rules.uses(Direction::Outbound) {
        &&& r is Ok
        &&& after.same_lists(before)
        &&& after.calls() == before.calls()
    } else {
        exists|candidate: Snapshot, refusal: Option<BackendError>|
            {
                &&& #[trigger] initial_call(before, after, candidate, refusal)
                &&& loaded(
                    config,
                    Direction::Inbound,
                    inbound,
                    before.snapshot().inbound,
                    candidate.inbound,
                )
                &&& loaded(
                    config,
                    Direction::Outbound,
                    outbound,
                    before.snapshot().outbound,
                    candidate.outbound,
                )
                &&& match refusal {
                    None => {
                        &&& r is Ok
                        &&& after.snapshot() == candidate
                        &&& forall|direction: Direction| #[trigger]
                            after.known(direction) == (before.known(direction)
                                || config.rules.uses(direction))
                    },
                    Some(error) => {
                        &&& r == Err::<(), DaemonError>(DaemonError::Backend(error))
                        &&& after.same_lists(before)
                    },
                }
            }
    }
}

/// The backend was asked once, to refill one direction with this list, and gave this answer.
pub open spec fn reload_call<B: Backend>(
    before: Daemon<B>,
    after: Daemon<B>,
    direction: Direction,
    list: ParsedBlocklist,
    refusal: Option<BackendError>,
) -> bool {
    after.calls() == before.calls().push(
        crate::netlink::direction_call(
            before.config(),
            before.rules(),
            direction,
            with_list(before.snapshot(), direction, list),
            refusal,
        ),
    )
}

/// How a reload ends.
pub open spec fn reload_ends<B: Backend>(
    before: Daemon<B>,
    after: Daemon<B>,
    direction: Direction,
    lines: Seq<String>,
    r: Result<(), DaemonError>,
) -> bool {
    match read_of(lines).fault {
        Some(fault) => {
            &&& r matches Err(error) && error.fault() == parse_fault(
                before.config(),
                direction,
                fault,
            )
            &&& after.same_lists(before)
            &&& after.calls() == before.calls()
        },
        None => exists|list: ParsedBlocklist, refusal: Option<BackendError>|
            {
                &&& #[trigger] reload_call(before, after, direction, list, refusal)
                &&& list.lists(read_of(lines).nets)
                &&& match refusal {
                    None => {
                        &&& r is Ok
                        &&& after.snapshot() == with_list(before.snapshot(), direction, list)
                        &&& forall|other: Direction| #[trigger]
                            after.known(other) == (before.known(other) || other == direction)
                    },
                    Some(error) => {
                        &&& r == Err::<(), DaemonError>(DaemonError::Backend(error))
                        &&& after.same_lists(before)
                    },
                }
            },
    }
}

/// The backend was asked to replace the table by the active lists, and gave this answer.
pub open spec fn reconcile_call<B: Backend>(
    before: Daemon<B>,
    between: Seq<Call>,
    after: Daemon<B>,
    refusal: Option<BackendError>,
) -> bool {
    after.calls() == between.push(
        crate::netlink::apply_call(before.config(), before.rules(), before.snapshot(), refusal),
    )
}

/// The error that ended a reconciliation, if one did: that of the flowtable check.
pub open spec fn check_refusal(r: Result<Reconciled, DaemonError>) -> Option<BackendError> {
    match r {
        Err(DaemonError::Backend(error)) => Some(error),
        _ => None,
    }
}

/// The error for which the table was not replaced, if it was not.
pub open spec fn table_refusal(r: Result<Reconciled, DaemonError>) -> Option<BackendError> {
    match r {
        Ok(Reconciled::Failed(error)) => Some(error),
        _ => None,
    }
}

/// How a reconciliation ends. In between, the backend was asked about flowtables, unless they are
/// allowed to bypass the firewall.
pub open spec fn reconcile_ends<B: Backend>(
    before: Daemon<B>,
    between: Seq<Call>,
    after: Daemon<B>,
    r: Result<Reconciled, DaemonError>,
) -> bool {
    let config = before.config();
    let unused = !config.rules.uses(Direction::Inbound) && !config.rules.uses(Direction::Outbound);
    &&& flowtables_checked(
        config,
        before.calls(),
        between,
        before.protected(),
        check_refusal(r),
    )
    &&& match r {
        Err(error) => error is Backend && after.calls() == between,
        Ok(Reconciled::Unused) => unused && after.calls() == between,
        Ok(Reconciled::Deferred) => !unused && !before.ready() && after.calls() == between,
        Ok(Reconciled::Applied) => !unused && before.ready() && reconcile_call(
            before,
            between,
            after,
            None,
        ),
        Ok(Reconciled::Failed(error)) => !unused && before.ready() && reconcile_call(
            before,
            between,
            after,
            Some(error),
        ),
    }
}

/// The zones on either side of the mapping have the interface.
pub open spec fn mapping_touches(zones: Zones, mapping: RuleMapping, interface: Seq<char>) -> bool {
    crate::zones::belongs(zones.zones(), mapping.ingress_zones@, interface)
        || crate::zones::belongs(zones.zones(), mapping.egress_zones@, interface)
}

/// The protected interfaces are those of every zone that a mapping of any chain names, on its
/// ingress side or on its egress side, and no others. So a flowtable on either side of a mapping is
/// noticed.
pub proof fn law_both_sides_are_protected(
    config: Config,
    zones: Zones,
    rules: Seq<RenderedRule>,
    protected: Seq<String>,
    interface: Seq<char>,
)
    requires
        crate::zones::zones_wf(zones.zones()),
        planned(config, zones, rules, protected),
    ensures
        crate::text::ascending(protected),
        crate::text::has_text(protected, interface) <==> exists|mapping: RuleMapping|
            #![trigger mapping_touches(zones, mapping, interface)]
            (config.rules.input@.contains(mapping) || config.rules.forward@.contains(mapping)
                || config.rules.output@.contains(mapping)) && mapping_touches(
                zones,
                mapping,
                interface,
            ),
{
    let all = crate::zones::mappings(config.rules);
    let z = zones.zones();
    let resolved = choose|resolved: Seq<ResolvedRule>| #[trigger]
        crate::zones::all_resolve(z, all, resolved) && rules == crate::rules::rendered(resolved);
    crate::rules::law_rules_name_every_interface(resolved, interface);
    assert(rules_name(rules, interface) <==> exists|n: int|
        0 <= n < rules.len() && crate::rules::names(#[trigger] rules[n], interface)) by {
        if rules_name(rules, interface) {
            let n = choose|n: int| 0 <= n < rules.len() && rule_names(#[trigger] rules[n], interface);
            assert(crate::rules::names(rules[n], interface));
        }
        if exists|n: int| 0 <= n < rules.len() && crate::rules::names(#[trigger] rules[n], interface) {
            let n = choose|n: int|
                0 <= n < rules.len() && crate::rules::names(#[trigger] rules[n], interface);
            assert(rule_names(rules[n], interface));
        }
    }
    assert forall|k: int| 0 <= k < resolved.len() implies crate::rules::on_either_side(
        #[trigger] resolved[k],
        interface,
    ) == mapping_touches(zones, all[k].1, interface) by {
        let mapping = all[k].1;
        assert(crate::zones::resolves(z, all[k].0, mapping, resolved[k]));
        crate::zones::law_names_stand_for_their_zones(z, mapping.ingress_zones@, interface);
        crate::zones::law_names_stand_for_their_zones(z, mapping.egress_zones@, interface);
    }
    if crate::text::has_text(protected, interface) {
        let k = choose|k: int|
            0 <= k < resolved.len() && crate::rules::on_either_side(#[trigger] resolved[k], interface);
        let (chain, mapping) = all[k];
        assert(all.contains((chain, mapping)));
        crate::zones::law_mappings_keep_their_chains(config.rules, chain, mapping);
        assert(mapping_touches(zones, mapping, interface));
    }
    if exists|mapping: RuleMapping|
        #![trigger mapping_touches(zones, mapping, interface)]
        (config.rules.input@.contains(mapping) || config.rules.forward@.contains(mapping)
            || config.rules.output@.contains(mapping)) && mapping_touches(
            zones,
            mapping,
            interface,
        ) {
        let mapping = choose|mapping: RuleMapping|
            #![trigger mapping_touches(zones, mapping, interface)]
            (config.rules.input@.contains(mapping) || config.rules.forward@.contains(mapping)
                || config.rules.output@.contains(mapping)) && mapping_touches(
                zones,
                mapping,
                interface,
            );
        crate::zones::law_mappings_keep_their_chains(config.rules, Chain::Input, mapping);
        crate::zones::law_mappings_keep_their_chains(config.rules, Chain::Forward, mapping);
        crate::zones::law_mappings_keep_their_chains(config.rules, Chain::Output, mapping);
        let chain = if config.rules.input@.contains(mapping) {
            Chain::Input
        } else if config.rules.forward@.contains(mapping) {
            Chain::Forward
        } else {
            Chain::Output
        };
        let k = choose|k: int| 0 <= k < all.len() && #[trigger] all[k] == (chain, mapping);
        assert(crate::rules::on_either_side(resolved[k], interface));
    }
}

/// A request about flowtables goes out exactly where they may not bypass the firewall, and asks
/// about the protected interfaces. The firewall is refused exactly where the answer is an error or
/// names any interface.
pub proof fn law_any_conflict_is_refused(
    config: Config,
    before: Seq<Call>,
    after: Seq<Call>,
    protected: Seq<String>,
    refusal: Option<BackendError>,
)
    requires
        flowtables_checked(config, before, after, protected, refusal),
    ensures
        config.nftables.allow_flowtable_bypass ==> after == before && refusal is None,
        !config.nftables.allow_flowtable_bypass ==> {
            &&& after.len() == before.len() + 1
            &&& after.drop_last() == before
            &&& after.last() matches Call::FlowtableConflicts { protected: asked, answer }
                && asked == protected && match answer {
                Ok(conflicts) => if conflicts@.len() == 0 {
                    refusal is None
                } else {
                    refusal == Some(BackendError::FlowtableBypass(conflicts))
                },
                Err(error) => refusal == Some(error),
            }
        },
{
    if !config.nftables.allow_flowtable_bypass {
        let answer = choose|answer: Result<Vec<String>, BackendError>| #[trigger]
            conflicts_answer(before, after, protected, answer) && refusal == verdict_of(answer);
        assert(after.drop_last() =~= before);
    }
}

/// A reload that is refused, by the list's content or by the backend, leaves everything that was
/// loaded as it was.
pub proof fn law_a_refused_reload_changes_nothing<B: Backend>(
    before: Daemon<B>,
    after: Daemon<B>,
    direction: Direction,
    lines: Seq<String>,
    error: DaemonError,
    other: Direction,
)
    requires
        reload_ends(before, after, direction, lines, Err(error)),
    ensures
        after.snapshot() == before.snapshot(),
        after.known(other) == before.known(other),
        read_of(lines).fault is Some ==> after.calls() == before.calls(),
{
}

/// A reload that succeeds replaces its own list by the entries of the new content, and leaves the
/// other list alone. The list counts as loaded from then on.
pub proof fn law_a_reload_replaces_its_list_alone<B: Backend>(
    before: Daemon<B>,
    after: Daemon<B>,
    direction: Direction,
    lines: Seq<String>,
)
    requires
        reload_ends(before, after, direction, lines, Ok(())),
    ensures
        read_of(lines).fault is None,
        after.known(direction),
        direction == Direction::Inbound ==> after.snapshot().inbound.lists(read_of(lines).nets)
            && after.snapshot().outbound == before.snapshot().outbound && after.known(
            Direction::Outbound,
        ) == before.known(Direction::Outbound),
        direction == Direction::Outbound ==> after.snapshot().outbound.lists(read_of(lines).nets)
            && after.snapshot().inbound == before.snapshot().inbound && after.known(
            Direction::Inbound,
        ) == before.known(Direction::Inbound),
{
}

/// A list whose content can be used is handed to the backend, once, for its own direction, together
/// with the rules and with the other list as it is in force; and the backend's answer decides.
pub proof fn law_a_readable_list_reaches_the_backend<B: Backend>(
    before: Daemon<B>,
    after: Daemon<B>,
    direction: Direction,
    lines: Seq<String>,
    r: Result<(), DaemonError>,
)
    requires
        reload_ends(before, after, direction, lines, r),
        read_of(lines).fault is None,
    ensures
        after.calls().len() == before.calls().len() + 1,
        after.calls().drop_last() == before.calls(),
        after.calls().last() is ApplyDirection,
        ({
            let call = after.calls().last();
            &&& call->ApplyDirection_config == before.config()
            &&& call->ApplyDirection_rules == before.rules()
            &&& call->ApplyDirection_direction == direction
            &&& r is Ok <==> call->ApplyDirection_refusal is None
            &&& match direction {
                Direction::Inbound => call->ApplyDirection_snapshot.inbound.lists(
                    read_of(lines).nets,
                ) && call->ApplyDirection_snapshot.outbound == before.snapshot().outbound,
                Direction::Outbound => call->ApplyDirection_snapshot.outbound.lists(
                    read_of(lines).nets,
                ) && call->ApplyDirection_snapshot.inbound == before.snapshot().inbound,
            }
        }),
{
    let (list, refusal) = choose|list: ParsedBlocklist, refusal: Option<BackendError>|
        {
            &&& #[trigger] reload_call(before, after, direction, list, refusal)
            &&& list.lists(read_of(lines).nets)
            &&& match refusal {
                None => {
                    &&& r is Ok
                    &&& after.snapshot() == with_list(before.snapshot(), direction, list)
                    &&& forall|other: Direction| #[trigger]
                        after.known(other) == (before.known(other) || other == direction)
                },
                Some(error) => {
                    &&& r == Err::<(), DaemonError>(DaemonError::Backend(error))
                    &&& after.same_lists(before)
                },
            }
        };
    assert(reload_call(before, after, direction, list, refusal));
    assert(after.calls().drop_last() =~= before.calls());
}

/// The content that was given can be used as the list: it is there, and every line of it can be
/// read.
pub open spec fn is_readable(lines: Option<&Vec<String>>) -> bool {
    lines is Some && read_of(lines->0@).fault is None
}

/// A first load is refused without a word to the backend exactly where the content of a list that
/// some mapping names is missing or cannot be read. A list that no mapping names is not looked at.
pub proof fn law_named_lists_must_be_readable(
    config: Config,
    inbound: Option<&Vec<String>>,
    outbound: Option<&Vec<String>>,
)
    ensures
        loads_fault(config, inbound, outbound) is None <==> {
            &&& crate::config::on_some_chain(config.rules, Direction::Inbound) ==> is_readable(
                inbound,
            )
            &&& crate::config::on_some_chain(config.rules, Direction::Outbound) ==> is_readable(
                outbound,
            )
        },
{
    crate::config::law_any_chain_makes_a_list_used(config.rules, Direction::Inbound);
    crate::config::law_any_chain_makes_a_list_used(config.rules, Direction::Outbound);
}

/// A first load that succeeds has loaded every list that a mapping names, with the entries of its
/// content; the backend was given them all in one request. One that fails has loaded nothing.
pub proof fn law_a_first_load_is_all_or_nothing<B: Backend>(
    before: Daemon<B>,
    after: Daemon<B>,
    inbound: Option<&Vec<String>>,
    outbound: Option<&Vec<String>>,
    r: Result<(), DaemonError>,
)
    requires
        initial_load_ends(before, after, inbound, outbound, r),
    ensures
        r is Err ==> after.snapshot() == before.snapshot() && after.known(Direction::Inbound)
            == before.known(Direction::Inbound) && after.known(Direction::Outbound)
            == before.known(Direction::Outbound),
        r is Ok && crate::config::on_some_chain(before.config().rules, Direction::Inbound) ==> {
            &&& is_readable(inbound)
            &&& after.known(Direction::Inbound)
            &&& after.snapshot().inbound.lists(read_of(inbound->0@).nets)
        },
        r is Ok && crate::config::on_some_chain(before.config().rules, Direction::Outbound) ==> {
            &&& is_readable(outbound)
            &&& after.known(Direction::Outbound)
            &&& after.snapshot().outbound.lists(read_of(outbound->0@).nets)
        },
        r is Ok && (crate::config::on_some_chain(before.config().rules, Direction::Inbound)
            || crate::config::on_some_chain(before.config().rules, Direction::Outbound)) ==> {
            &&& after.calls().len() == before.calls().len() + 1
            &&& after.calls().last() is Apply
            &&& after.calls().last()->Apply_config == before.config()
            &&& after.calls().last()->Apply_rules == before.rules()
            &&& after.calls().last()->Apply_snapshot == after.snapshot()
            &&& after.calls().last()->Apply_refusal is None
        },
{
    let config = before.config();
    law_named_lists_must_be_readable(config, inbound, outbound);
    crate::config::law_any_chain_makes_a_list_used(config.rules, Direction::Inbound);
    crate::config::law_any_chain_makes_a_list_used(config.rules, Direction::Outbound);
}

/// The backend is asked for a first load wherever the named lists can be read, and its answer
/// decides.
pub proof fn law_the_backend_decides_a_first_load<B: Backend>(
    before: Daemon<B>,
    after: Daemon<B>,
    inbound: Option<&Vec<String>>,
    outbound: Option<&Vec<String>>,
    r: Result<(), DaemonError>,
)
    requires
        initial_load_ends(before, after, inbound, outbound, r),
        crate::config::on_some_chain(before.config().rules, Direction::Inbound) ==> is_readable(
            inbound,
        ),
        crate::config::on_some_chain(before.config().rules, Direction::Outbound) ==> is_readable(
            outbound,
        ),
    ensures
        crate::config::on_some_chain(before.config().rules, Direction::Inbound)
            || crate::config::on_some_chain(before.config().rules, Direction::Outbound) ==> {
            &&& after.calls().len() == before.calls().len() + 1
            &&& after.calls().last() is Apply
            &&& r is Ok <==> after.calls().last()->Apply_refusal is None
        },
        !crate::config::on_some_chain(before.config().rules, Direction::Inbound)
            && !crate::config::on_some_chain(before.config().rules, Direction::Outbound) ==> r is Ok
            && after.calls() == before.calls(),
{
    let config = before.config();
    law_named_lists_must_be_readable(config, inbound, outbound);
    crate::config::law_any_chain_makes_a_list_used(config.rules, Direction::Inbound);
    crate::config::law_any_chain_makes_a_list_used(config.rules, Direction::Outbound);
}

/// A reconciliation that flowtables do not stand in the way of puts the lists in force back in
/// place, with the rules of the daemon, exactly where some list is named and every named list has
/// been loaded. Where one has not been loaded, the table is not touched.
pub proof fn law_reconciliation_waits_for_every_named_list<B: Backend>(
    before: Daemon<B>,
    between: Seq<Call>,
    after: Daemon<B>,
    r: Result<Reconciled, DaemonError>,
)
    requires
        reconcile_ends(before, between, after, r),
        r is Ok,
    ensures
        ({
            let inbound = crate::config::on_some_chain(before.config().rules, Direction::Inbound);
            let outbound = crate::config::on_some_chain(
                before.config().rules,
                Direction::Outbound,
            );
            let loaded = (inbound ==> before.known(Direction::Inbound)) && (outbound
                ==> before.known(Direction::Outbound));
            if (inbound || outbound) && loaded {
                &&& r->Ok_0 is Applied || r->Ok_0 is Failed
                &&& after.calls().len() == between.len() + 1
                &&& after.calls().last() is Apply
                &&& after.calls().last()->Apply_config == before.config()
                &&& after.calls().last()->Apply_rules == before.rules()
                &&& after.calls().last()->Apply_snapshot == before.snapshot()
                &&& r->Ok_0 is Applied <==> after.calls().last()->Apply_refusal is None
            } else {
                after.calls() == between && (r->Ok_0 is Deferred <==> !loaded)
            }
        }),
{
    let config = before.config();
    crate::config::law_any_chain_makes_a_list_used(config.rules, Direction::Inbound);
    crate::config::law_any_chain_makes_a_list_used(config.rules, Direction::Outbound);
    if config.rules.uses(Direction::Inbound) && !before.known(Direction::Inbound) {
        assert(!before.ready());
    }
    if config.rules.uses(Direction::Outbound) && !before.known(Direction::Outbound) {
        assert(!before.ready());
    }
}

/// What is said of a list that cannot be read names the file that the list is configured to be in.
pub proof fn law_errors_name_their_file(config: Config, direction: Direction, fault: Fault)
    ensures
        parse_fault(config, direction, fault) is Parse,
        parse_fault(config, direction, fault)->Parse_direction == direction,
        parse_fault(config, direction, fault)->Parse_fault == fault,
        direction == Direction::Inbound ==> (config.files.inbound matches Some(path) ==> parse_fault(
            config,
            direction,
            fault,
        )->path == path@),
        direction == Direction::Outbound ==> (config.files.outbound matches Some(path)
            ==> parse_fault(config, direction, fault)->path == path@),
{
}

/// A first load reaches the backend exactly where some list is named and every named one can be
/// read; the first that cannot, inbound before outbound, is what it is refused for.
pub proof fn law_readable_lists_are_sent(
    config: Config,
    inbound: Option<&Vec<String>>,
    outbound: Option<&Vec<String>>,
)
    ensures
        ({
            let first = crate::config::on_some_chain(config.rules, Direction::Inbound);
            let second = crate::config::on_some_chain(config.rules, Direction::Outbound);
            &&& lists_are_sent(config, inbound, outbound) <==> (first || second) && (first
                ==> is_readable(inbound)) && (second ==> is_readable(outbound))
            &&& first && inbound is None ==> loads_fault(config, inbound, outbound) == Some(
                DaemonFault::NotLoaded(Direction::Inbound),
            )
            &&& (first ==> is_readable(inbound)) && second && outbound is None ==> loads_fault(
                config,
                inbound,
                outbound,
            ) == Some(DaemonFault::NotLoaded(Direction::Outbound))
        }),
{
    law_named_lists_must_be_readable(config, inbound, outbound);
    crate::config::law_any_chain_makes_a_list_used(config.rules, Direction::Inbound);
    crate::config::law_any_chain_makes_a_list_used(config.rules, Direction::Outbound);
}

/// A configuration that is planned has among its protected interfaces all that its mappings have on
/// their ingress side or on their egress side, and no others.
pub proof fn law_plans_protect_both_sides(
    config: &Config,
    zones: &Zones,
    rules: Vec<RenderedRule>,
    protected: Vec<String>,
    interface: Seq<char>,
)
    requires
        crate::zones::zones_wf(zones.zones()),
        call_ensures(plan, (config, zones), Ok((rules, protected))),
    ensures
        crate::text::has_text(protected@, interface) <==> exists|mapping: RuleMapping|
            #![trigger mapping_touches(*zones, mapping, interface)]
            (config.rules.input@.contains(mapping) || config.rules.forward@.contains(mapping)
                || config.rules.output@.contains(mapping)) && mapping_touches(
                *zones,
                mapping,
                interface,
            ),
{
    law_both_sides_are_protected(*config, *zones, rules@, protected@, interface);
}

/// A configuration is planned exactly where its mappings are accepted and every named list has a
/// path.
pub proof fn law_accepted_configurations_are_planned(
    config: &Config,
    zones: &Zones,
    r: Result<(Vec<RenderedRule>, Vec<String>), ConfigError>,
)
    requires
        call_ensures(plan, (config, zones), r),
    ensures
        r is Ok <==> config.rules_fault(*zones) is None,
{
}

/// A reload replaces its own list or nothing: where it succeeds, the list has the entries of the new
/// content and the other list is as it was; where it fails, both lists are.
pub proof fn law_reloads_replace_one_list_or_none<B: Backend>(direction: Direction)
    ensures
        forall|daemon: &mut Daemon<B>, lines: &Vec<String>, r: Result<(), DaemonError>| #[trigger]
            call_ensures(Daemon::<B>::reload, (daemon, direction, lines), r) ==> {
                let (before, after) = ((*daemon).snapshot(), (*final(daemon)).snapshot());
                &&& r is Ok ==> read_of(lines@).fault is None
                &&& read_of(lines@).fault is Some ==> (*final(daemon)).calls() == (*daemon).calls()
                &&& r is Err ==> after == before
                &&& r is Ok ==> (*final(daemon)).known(direction)
                &&& r is Ok && direction == Direction::Inbound ==> after.inbound.lists(
                    read_of(lines@).nets,
                ) && after.outbound == before.outbound
                &&& r is Ok && direction == Direction::Outbound ==> after.outbound.lists(
                    read_of(lines@).nets,
                ) && after.inbound == before.inbound
                &&& (*final(daemon)).rules() == (*daemon).rules()
                &&& (*final(daemon)).config() == (*daemon).config()
                &&& (*final(daemon)).protected() == (*daemon).protected()
            },
{
}

} // verus!
