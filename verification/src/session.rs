//! The running daemon: what it waits for, what it does next, and when it ends.
use crate::blocklist::ParsedBlocklist;
use crate::config::Config;
use crate::config::Direction;
use crate::daemon::Daemon;
use crate::daemon::DaemonError;
use crate::daemon::Reconciled;
use crate::netlink::Backend;
use crate::netlink::BackendError;
use crate::netlink::Call;
use crate::rules::RenderedRule;
use crate::watch::Due;
use crate::watch::Watch;
use crate::watch::WatchInput;
use vstd::prelude::*;

verus! {

/// What enforces the lists.
#[derive(Debug, Clone, Copy, PartialEq, Eq, Structural)]
pub enum Target {
    Nftables,
    Xdp,
}

/// Some of the two.
#[derive(Debug, Clone, Copy, PartialEq, Eq, Structural)]
pub struct Targets {
    pub nftables: bool,
    pub xdp: bool,
}

impl Targets {
    pub open spec fn has(self, target: Target) -> bool {
        match target {
            Target::Nftables => self.nftables,
            Target::Xdp => self.xdp,
        }
    }
}

/// What enforces a list: each by its own mappings.
pub open spec fn enforcing(config: Config, direction: Direction) -> Targets {
    Targets {
        nftables: config.rules.uses(direction),
        xdp: crate::config::xdp_mapped(config.xdp.rules@, direction),
    }
}

/// What is to take in a new list, whatever becomes of it in the other.
pub fn targets_due(config: &Config, direction: Direction) -> (r: Targets)
    ensures
        r == enforcing(*config, direction),
{
    Targets { nftables: config.uses(direction), xdp: config.uses_xdp(direction) }
}

/// What is removed from the kernel at the end. Nothing is, unless the configuration says so.
pub fn removed_on_exit(config: &Config) -> (r: Targets)
    ensures
        r == (Targets {
            nftables: config.nftables.cleanup_on_exit,
            xdp: config.xdp.cleanup_on_exit && crate::config::xdp_mapped(
                config.xdp.rules@,
                Direction::Inbound,
            ),
        }),
{
    Targets {
        nftables: config.nftables.cleanup_on_exit,
        xdp: config.xdp.cleanup_on_exit && config.uses_xdp(Direction::Inbound),
    }
}

/// Why watching ends.
#[derive(Debug, Clone, Copy, PartialEq, Eq, Structural)]
pub enum End {
    /// A stop was requested.
    Requested,
    /// The watcher is gone.
    WatcherLost,
    /// A flowtable bypasses the firewall, or that cannot be ruled out.
    Bypassed,
}

/// What to do next.
#[derive(Debug, Clone, Copy, PartialEq, Eq, Structural)]
pub enum Task {
    /// See whether a stop was requested, and otherwise wait for the watcher.
    Wait,
    /// Read a list and hand it over.
    Reload { target: Target, direction: Direction },
    /// Put back in place what should be in force.
    Reconcile(Target),
    /// Nothing more.
    Stop(End),
}

/// What came of a task.
#[derive(Debug, Clone, PartialEq, Eq)]
pub enum Report {
    /// A stop was requested.
    StopRequested,
    /// What the watcher reported, and when; and what time it is now.
    Watched { input: WatchInput, arrival: u64, now: u64 },
    /// The task was done.
    Done,
    /// The list was refused, or the flowtables stand in the way of a reconciliation.
    Refused,
}

/// A report that can follow a task.
pub open spec fn follows(task: Task, report: Report) -> bool {
    match task {
        Task::Wait => report is StopRequested || report is Watched,
        Task::Reload { .. } | Task::Reconcile(_) => report is Done || report is Refused,
        Task::Stop(_) => false,
    }
}

/// The reloads of a list, if it is due.
pub open spec fn reloads(config: Config, direction: Direction, due: bool) -> Seq<Task> {
    (if due && enforcing(config, direction).nftables {
        seq![Task::Reload { target: Target::Nftables, direction }]
    } else {
        Seq::empty()
    }) + (if due && enforcing(config, direction).xdp {
        seq![Task::Reload { target: Target::Xdp, direction }]
    } else {
        Seq::empty()
    })
}

/// The reconciliations, if they are due.
pub open spec fn reconciliations(config: Config, due: bool) -> Seq<Task> {
    (if due {
        seq![Task::Reconcile(Target::Nftables)]
    } else {
        Seq::empty()
    }) + (if due && enforcing(config, Direction::Inbound).xdp {
        seq![Task::Reconcile(Target::Xdp)]
    } else {
        Seq::empty()
    })
}

/// What is due, in order.
pub open spec fn tasks(config: Config, due: Due) -> Seq<Task> {
    reloads(config, Direction::Inbound, due.inbound) + reloads(
        config,
        Direction::Outbound,
        due.outbound,
    ) + reconciliations(config, due.reconcile)
}

fn push_reloads(todo: &mut Vec<Task>, config: &Config, direction: Direction, due: bool)
    ensures
        final(todo)@ == old(todo)@ + reloads(*config, direction, due),
{
    let targets = targets_due(config, direction);
    if due && targets.nftables {
        todo.push(Task::Reload { target: Target::Nftables, direction });
    }
    if due && targets.xdp {
        todo.push(Task::Reload { target: Target::Xdp, direction });
    }
    assert(todo@ =~= old(todo)@ + reloads(*config, direction, due));
}

fn list_tasks(config: &Config, due: Due) -> (r: Vec<Task>)
    ensures
        r@ == tasks(*config, due),
{
    let mut todo: Vec<Task> = Vec::new();
    push_reloads(&mut todo, config, Direction::Inbound, due.inbound);
    push_reloads(&mut todo, config, Direction::Outbound, due.outbound);
    if due.reconcile {
        todo.push(Task::Reconcile(Target::Nftables));
        if config.uses_xdp(Direction::Inbound) {
            todo.push(Task::Reconcile(Target::Xdp));
        }
    }
    assert(todo@ =~= tasks(*config, due));
    todo
}

/// What became of a task of the table's.
#[derive(Debug)]
pub enum Outcome {
    /// The task was not one of the table's.
    Untouched,
    /// The list could not be read.
    Unread,
    Reloaded(Result<(), DaemonError>),
    Reconciled(Result<Reconciled, DaemonError>),
}

impl Outcome {
    /// What is reported of it.
    pub fn report(&self) -> (r: Report)
        ensures
            r == (match *self {
                Outcome::Untouched => Report::Done,
                Outcome::Unread => Report::Refused,
                Outcome::Reloaded(result) => if result is Ok {
                    Report::Done
                } else {
                    Report::Refused
                },
                Outcome::Reconciled(result) => if result is Ok {
                    Report::Done
                } else {
                    Report::Refused
                },
            }),
    {
        match self {
            Outcome::Untouched => Report::Done,
            Outcome::Unread => Report::Refused,
            Outcome::Reloaded(Ok(())) => Report::Done,
            Outcome::Reloaded(Err(_)) => Report::Refused,
            Outcome::Reconciled(Ok(_)) => Report::Done,
            Outcome::Reconciled(Err(_)) => Report::Refused,
        }
    }
}

/// Does a task of the table's. A list is handed over with its lines, or without where it could not
/// be read. Any other task, and the end above all, leaves the daemon and its backend as they are.
pub fn perform<B: Backend>(daemon: &mut Daemon<B>, task: Task, lines: Option<&Vec<String>>) -> (r:
    Outcome)
    requires
        crate::daemon::countable(lines),
    ensures
        final(daemon).same_setup(*old(daemon)),
        performed(*old(daemon), task, lines, *final(daemon), r),
        match (task, lines) {
            (Task::Reload { target: Target::Nftables, direction }, Some(lines)) => if
                crate::daemon::read_of(lines@).fault is None {
                exists|
                    asked: &mut B,
                    rules: Vec<RenderedRule>,
                    list: ParsedBlocklist,
                    answer: Result<(), BackendError>,
                |
                    {
                        &&& *asked == old(daemon).backend()
                        &&& *final(asked) == final(daemon).backend()
                        &&& #[trigger] call_ensures(
                            B::apply_direction,
                            (
                                asked,
                                &old(daemon).config(),
                                &rules,
                                direction,
                                &crate::daemon::with_list(old(daemon).snapshot(), direction, list),
                            ),
                            answer,
                        )
                        &&& rules@ == old(daemon).rules()
                        &&& list.lists(crate::daemon::read_of(lines@).nets)
                        &&& r matches Outcome::Reloaded(result) && crate::daemon::answered(
                            result,
                            answer,
                        )
                    }
            } else {
                final(daemon).backend() == old(daemon).backend()
            },
            (Task::Reconcile(Target::Nftables), _) => exists|
                middle: B,
                protected: Vec<String>,
                result: Result<Reconciled, DaemonError>,
            |
                {
                    &&& #[trigger] crate::daemon::flowtables_asked(
                        old(daemon).config(),
                        old(daemon).backend(),
                        middle,
                        protected,
                        crate::daemon::check_refusal(result),
                    )
                    &&& r == Outcome::Reconciled(result)
                    &&& protected@ == old(daemon).protected()
                    &&& match result {
                        Ok(Reconciled::Applied) | Ok(Reconciled::Failed(_)) => exists|
                            asked: &mut B,
                            rules: Vec<RenderedRule>,
                            answer: Result<(), BackendError>,
                        |
                            *asked == middle && *final(asked) == final(daemon).backend()
                                && #[trigger] call_ensures(
                                B::apply,
                                (asked, &old(daemon).config(), &rules, &old(daemon).snapshot()),
                                answer,
                            ) && rules@ == old(daemon).rules() && crate::netlink::refusal(answer)
                                == crate::daemon::table_refusal(result),
                        _ => final(daemon).backend() == middle,
                    }
                },
            _ => final(daemon).backend() == old(daemon).backend(),
        },
{
    match task {
        Task::Reload { target: Target::Nftables, direction } => match lines {
            None => Outcome::Unread,
            Some(lines) => Outcome::Reloaded(daemon.reload(direction, lines)),
        },
        Task::Reconcile(Target::Nftables) => Outcome::Reconciled(daemon.reconcile()),
        _ => Outcome::Untouched,
    }
}

/// What a task does.
pub open spec fn performed<B: Backend>(
    before: Daemon<B>,
    task: Task,
    lines: Option<&Vec<String>>,
    after: Daemon<B>,
    outcome: Outcome,
) -> bool {
    match task {
        Task::Reload { target: Target::Nftables, direction } => match lines {
            None => outcome is Unread && after == before,
            Some(lines) => {
                &&& outcome matches Outcome::Reloaded(result)
                &&& crate::daemon::reload_ends(before, after, direction, lines@, result)
            },
        },
        Task::Reconcile(Target::Nftables) => {
            &&& outcome matches Outcome::Reconciled(result)
            &&& after.same_lists(before)
            &&& exists|between: Seq<Call>| #[trigger]
                crate::daemon::reconcile_ends(before, between, after, result)
        },
        _ => outcome is Untouched && after == before,
    }
}

/// The running daemon.
#[derive(Debug)]
pub struct Session {
    watch: Watch,
    task: Task,
    todo: Vec<Task>,
}

impl Session {
    /// What waits for its time.
    pub closed spec fn watch(self) -> Watch {
        self.watch
    }

    /// What is being done.
    pub closed spec fn task(self) -> Task {
        self.task
    }

    /// What is due after that.
    pub closed spec fn todo(self) -> Seq<Task> {
        self.todo@
    }

    /// To end is never something that waits its turn.
    pub open spec fn wf(self) -> bool {
        forall|k: int| 0 <= k < self.todo().len() ==> !(#[trigger] self.todo()[k] is Stop)
    }

    /// Begins to watch.
    pub fn new(watch: Watch) -> (session: Self)
        ensures
            session.wf(),
            session.watch() == watch,
            session.task() == Task::Wait,
            session.todo().len() == 0,
    {
        Session { watch, task: Task::Wait, todo: Vec::new() }
    }

    /// Takes in what came of the task, and says what to do next.
    pub fn step(&mut self, config: &Config, report: &Report) -> (r: Task)
        requires
            old(self).wf(),
            follows(old(self).task(), *report),
            report matches Report::Watched { arrival, now, .. } ==> arrival
                + config.runtime.debounce <= u64::MAX && now + config.runtime.reconcile
                <= u64::MAX,
        ensures
            final(self).wf(),
            r == final(self).task(),
            stepped(*old(self), *report, *final(self), *config),
    {
        let ghost before = *self;
        match report {
            Report::StopRequested => self.end(End::Requested),
            Report::Watched { input, arrival, now } => match self.watch.step(
                config,
                input,
                *arrival,
                *now,
            ) {
                None => self.end(End::WatcherLost),
                Some(due) => {
                    self.todo = list_tasks(config, due);
                    self.go_on();
                },
            },
            Report::Done => self.go_on(),
            Report::Refused => match self.task {
                Task::Reconcile(Target::Nftables) => self.end(End::Bypassed),
                _ => self.go_on(),
            },
        }
        proof {
            law_watching_ends_only_for_a_reason(before, *report, *self, *config, End::Requested);
        }
        self.task
    }

    fn end(&mut self, end: End)
        ensures
            final(self).watch() == old(self).watch(),
            stopped(*final(self), end),
    {
        self.task = Task::Stop(end);
        self.todo = Vec::new();
    }

    fn go_on(&mut self)
        ensures
            final(self).watch() == old(self).watch(),
            takes(*final(self), old(self).todo()),
    {
        if self.todo.len() == 0 {
            self.task = Task::Wait;
        } else {
            self.task = self.todo.remove(0);
            assert(self.todo@ =~= old(self).todo().drop_first());
        }
    }
}

/// Watching is over, and nothing is left to do.
pub open spec fn stopped(session: Session, end: End) -> bool {
    session.task() == Task::Stop(end) && session.todo().len() == 0
}

/// The first of the tasks is being done, or the session waits where there is none.
pub open spec fn takes(session: Session, tasks: Seq<Task>) -> bool {
    if tasks.len() == 0 {
        session.task() == Task::Wait && session.todo().len() == 0
    } else {
        session.task() == tasks[0] && session.todo() == tasks.drop_first()
    }
}

/// What a step does.
pub open spec fn stepped(before: Session, report: Report, after: Session, config: Config) -> bool {
    match report {
        Report::StopRequested => after.watch() == before.watch() && stopped(after, End::Requested),
        Report::Watched { input, arrival, now } => if input is Disconnected {
            after.watch() == before.watch() && stopped(after, End::WatcherLost)
        } else {
            let inbound = crate::watch::changes(
                input,
                crate::watch::watched(config, Direction::Inbound),
            );
            let outbound = crate::watch::changes(
                input,
                crate::watch::watched(config, Direction::Outbound),
            );
            let settled = (arrival + config.runtime.debounce) as u64;
            let next = (now + config.runtime.reconcile) as u64;
            let due = crate::watch::due(before.watch(), inbound, outbound, settled, now);
            &&& after.watch() == crate::watch::waiting(
                before.watch(),
                inbound,
                outbound,
                settled,
                now,
                next,
            )
            &&& takes(after, tasks(config, due))
        },
        Report::Refused if before.task() == Task::Reconcile(Target::Nftables) => {
            after.watch() == before.watch() && stopped(after, End::Bypassed)
        },
        _ => after.watch() == before.watch() && takes(after, before.todo()),
    }
}

/// Watching ends after a stop request, when the watcher is lost, or when flowtables bypass the
/// firewall, and never for another reason: however many lists are refused, it goes on. It ends as
/// requested only after a stop request.
pub proof fn law_watching_ends_only_for_a_reason(
    before: Session,
    report: Report,
    after: Session,
    config: Config,
    end: End,
)
    requires
        follows(before.task(), report),
        before.wf(),
        stepped(before, report, after, config),
    ensures
        after.wf(),
        after.task() == Task::Stop(end) <==> match end {
            End::Requested => report is StopRequested,
            End::WatcherLost => report matches Report::Watched { input, .. }
                && input is Disconnected,
            End::Bypassed => report is Refused && before.task() == Task::Reconcile(
                Target::Nftables,
            ),
        },
{
    if before.todo().len() > 0 {
        assert(!(before.todo()[0] is Stop));
        assert forall|k: int| 0 <= k < before.todo().drop_first().len() implies !(
        #[trigger] before.todo().drop_first()[k] is Stop) by {
            assert(!(before.todo()[k + 1] is Stop));
        }
    }
}

/// Once a stop was requested, nothing more is done: the backend is asked nothing, and no report can
/// follow. What is in force stays in force.
pub proof fn law_nothing_follows_a_stop<B: Backend>(
    before: Session,
    after: Session,
    config: Config,
    daemon: Daemon<B>,
    lines: Option<&Vec<String>>,
    later: Daemon<B>,
    outcome: Outcome,
)
    requires
        before.task() == Task::Wait,
        stepped(before, Report::StopRequested, after, config),
        performed(daemon, after.task(), lines, later, outcome),
    ensures
        after.task() == Task::Stop(End::Requested),
        after.todo().len() == 0,
        forall|report: Report| !#[trigger] follows(after.task(), report),
        later == daemon,
{
}

/// A list that one refuses changes nothing for what comes after: the session goes on as if it had
/// been taken in.
pub proof fn law_a_refused_list_changes_nothing(
    before: Session,
    accepted: Session,
    refused: Session,
    config: Config,
)
    requires
        before.task() is Reload,
        stepped(before, Report::Done, accepted, config),
        stepped(before, Report::Refused, refused, config),
    ensures
        refused.watch() == accepted.watch(),
        refused.task() == accepted.task(),
        refused.todo() == accepted.todo(),
        before.todo().len() > 0 ==> refused.task() == before.todo()[0],
        before.todo().len() == 0 ==> refused.task() == Task::Wait,
{
}

/// A part of the two, or of the one and the other.
proof fn lemma_either(a: Seq<Task>, b: Seq<Task>, task: Task)
    ensures
        (a + b).contains(task) <==> a.contains(task) || b.contains(task),
{
    if (a + b).contains(task) {
        let k = choose|k: int| 0 <= k < (a + b).len() && (a + b)[k] == task;
        if k < a.len() {
            assert(a[k] == task);
        } else {
            assert(b[k - a.len()] == task);
        }
    }
    if a.contains(task) {
        let k = choose|k: int| 0 <= k < a.len() && a[k] == task;
        assert((a + b)[k] == task);
    }
    if b.contains(task) {
        let k = choose|k: int| 0 <= k < b.len() && b[k] == task;
        assert((a + b)[a.len() + k] == task);
    }
}

proof fn lemma_only(on: bool, only: Task, task: Task)
    ensures
        (if on {
            seq![only]
        } else {
            Seq::empty()
        }).contains(task) <==> on && task == only,
{
    if on {
        assert(seq![only][0] == only);
    }
}

proof fn lemma_reloads(config: Config, direction: Direction, due: bool, task: Task)
    ensures
        reloads(config, direction, due).contains(task) <==> due && match task {
            Task::Reload { target, direction: other } => other == direction && enforcing(
                config,
                direction,
            ).has(target),
            _ => false,
        },
{
    let first = due && enforcing(config, direction).nftables;
    let second = due && enforcing(config, direction).xdp;
    let one = Task::Reload { target: Target::Nftables, direction };
    let two = Task::Reload { target: Target::Xdp, direction };
    lemma_only(first, one, task);
    lemma_only(second, two, task);
    lemma_either(
        if first {
            seq![one]
        } else {
            Seq::empty()
        },
        if second {
            seq![two]
        } else {
            Seq::empty()
        },
        task,
    );
}

proof fn lemma_reconciliations(config: Config, due: bool, task: Task)
    ensures
        reconciliations(config, due).contains(task) <==> due && match task {
            Task::Reconcile(Target::Nftables) => true,
            Task::Reconcile(Target::Xdp) => enforcing(config, Direction::Inbound).xdp,
            _ => false,
        },
{
    let second = due && enforcing(config, Direction::Inbound).xdp;
    let one = Task::Reconcile(Target::Nftables);
    let two = Task::Reconcile(Target::Xdp);
    lemma_only(due, one, task);
    lemma_only(second, two, task);
    lemma_either(
        if due {
            seq![one]
        } else {
            Seq::empty()
        },
        if second {
            seq![two]
        } else {
            Seq::empty()
        },
        task,
    );
}

proof fn lemma_tasks(config: Config, due: Due, task: Task)
    ensures
        tasks(config, due).contains(task) <==> match task {
            Task::Reload { target, direction } => due.reload(direction) && enforcing(
                config,
                direction,
            ).has(target),
            Task::Reconcile(Target::Nftables) => due.reconcile,
            Task::Reconcile(Target::Xdp) => due.reconcile && enforcing(
                config,
                Direction::Inbound,
            ).xdp,
            _ => false,
        },
{
    let a = reloads(config, Direction::Inbound, due.inbound);
    let b = reloads(config, Direction::Outbound, due.outbound);
    let c = reconciliations(config, due.reconcile);
    lemma_reloads(config, Direction::Inbound, due.inbound, task);
    lemma_reloads(config, Direction::Outbound, due.outbound, task);
    lemma_reconciliations(config, due.reconcile, task);
    lemma_either(a, b, task);
    lemma_either(a + b, c, task);
}

/// The configuration has a mapping of the list for this target.
pub open spec fn has_mapping(config: Config, target: Target, direction: Direction) -> bool {
    match target {
        Target::Nftables => crate::config::on_some_chain(config.rules, direction),
        Target::Xdp => crate::config::on_xdp(config.xdp.rules@, direction),
    }
}

/// A list is enforced by each of the two that has a mapping of it, and by no other; what the one
/// does has no part in what the other does.
pub proof fn law_each_enforces_its_mappings(config: Config, target: Target, direction: Direction)
    ensures
        enforcing(config, direction).has(target) <==> has_mapping(config, target, direction),
{
    crate::config::law_any_chain_makes_a_list_used(config.rules, direction);
    crate::config::law_any_xdp_mapping_counts(config.xdp.rules@, direction);
}

/// A list that is due is handed to each of the two that enforces it, and to no other; what one of
/// them answers does not keep it from the other.
pub proof fn law_each_gets_its_list(config: Config, due: Due, target: Target, direction: Direction)
    ensures
        tasks(config, due).contains(Task::Reload { target, direction }) <==> (match direction {
            Direction::Inbound => due.inbound,
            Direction::Outbound => due.outbound,
        }) && enforcing(config, direction).has(target),
        tasks(config, due).contains(Task::Reload { target, direction }) <==> (match direction {
            Direction::Inbound => due.inbound,
            Direction::Outbound => due.outbound,
        }) && has_mapping(config, target, direction),
{
    lemma_tasks(config, due, Task::Reload { target, direction });
    law_each_enforces_its_mappings(config, target, direction);
}

/// When a reconciliation is due, the table is always put back in place, and XDP where it has a
/// mapping. Nothing else is ever to be done than what is due.
pub proof fn law_a_due_reconciliation_is_done(config: Config, due: Due, end: End)
    ensures
        tasks(config, due).contains(Task::Reconcile(Target::Nftables)) <==> due.reconcile,
        tasks(config, due).contains(Task::Reconcile(Target::Xdp)) <==> due.reconcile && has_mapping(
            config,
            Target::Xdp,
            Direction::Inbound,
        ),
        !tasks(config, due).contains(Task::Wait),
        !tasks(config, due).contains(Task::Stop(end)),
{
    lemma_tasks(config, due, Task::Reconcile(Target::Nftables));
    lemma_tasks(config, due, Task::Reconcile(Target::Xdp));
    lemma_tasks(config, due, Task::Wait);
    lemma_tasks(config, due, Task::Stop(end));
    law_each_enforces_its_mappings(config, Target::Xdp, Direction::Inbound);
}

/// The reloads of a list are for that list, one for each target at most.
proof fn lemma_reloads_apart(config: Config, direction: Direction, due: bool)
    ensures
        ({
            let all = reloads(config, direction, due);
            &&& all.no_duplicates()
            &&& forall|k: int|
                0 <= k < all.len() ==> (#[trigger] all[k]) is Reload && all[k]->direction
                    == direction
        }),
{
}

proof fn lemma_reconciliations_apart(config: Config, due: bool)
    ensures
        ({
            let all = reconciliations(config, due);
            &&& all.no_duplicates()
            &&& forall|k: int| 0 <= k < all.len() ==> (#[trigger] all[k]) is Reconcile
        }),
{
}

/// Lists are read again before anything is put back in place, and nothing is done twice.
pub proof fn law_reloads_come_first(config: Config, due: Due, i: int, j: int)
    requires
        0 <= i < j < tasks(config, due).len(),
    ensures
        tasks(config, due)[i] is Reconcile ==> tasks(config, due)[j] is Reconcile,
        tasks(config, due)[i] != tasks(config, due)[j],
{
    let a = reloads(config, Direction::Inbound, due.inbound);
    let b = reloads(config, Direction::Outbound, due.outbound);
    let c = reconciliations(config, due.reconcile);
    lemma_reloads_apart(config, Direction::Inbound, due.inbound);
    lemma_reloads_apart(config, Direction::Outbound, due.outbound);
    lemma_reconciliations_apart(config, due.reconcile);
    lemma_joined_apart(a, b, c, i, j);
}

proof fn lemma_joined_apart(a: Seq<Task>, b: Seq<Task>, c: Seq<Task>, i: int, j: int)
    requires
        a.no_duplicates(),
        b.no_duplicates(),
        c.no_duplicates(),
        forall|k: int|
            0 <= k < a.len() ==> (#[trigger] a[k]) is Reload && a[k]->direction
                == Direction::Inbound,
        forall|k: int|
            0 <= k < b.len() ==> (#[trigger] b[k]) is Reload && b[k]->direction
                == Direction::Outbound,
        forall|k: int| 0 <= k < c.len() ==> (#[trigger] c[k]) is Reconcile,
        0 <= i < j < (a + b + c).len(),
    ensures
        (a + b + c)[i] is Reconcile ==> (a + b + c)[j] is Reconcile,
        (a + b + c)[i] != (a + b + c)[j],
{
    let all = a + b + c;
    let (n, m) = (a.len() as int, b.len() as int);
    let x = if i < n {
        a[i]
    } else if i < n + m {
        b[i - n]
    } else {
        c[i - n - m]
    };
    let y = if j < n {
        a[j]
    } else if j < n + m {
        b[j - n]
    } else {
        c[j - n - m]
    };
    assert(all[i] == x && all[j] == y);
}

/// The tasks of the list are done one after the other until none is left: whatever a task comes to,
/// the next one follows. Only flowtables that stand in the way of putting the table back end the
/// watching.
pub proof fn law_tasks_are_done_in_turn(
    before: Session,
    report: Report,
    after: Session,
    config: Config,
)
    requires
        before.task() is Reload || before.task() is Reconcile,
        follows(before.task(), report),
        stepped(before, report, after, config),
        report is Done || before.task() != Task::Reconcile(Target::Nftables),
    ensures
        after.watch() == before.watch(),
        before.todo().len() == 0 ==> after.task() == Task::Wait && after.todo().len() == 0,
        before.todo().len() > 0 ==> seq![after.task()] + after.todo() == before.todo(),
{
    if before.todo().len() > 0 {
        assert(seq![after.task()] + after.todo() =~= before.todo());
    }
}

/// Nothing is removed from the kernel at the end unless the configuration says so, each of the two
/// by itself; and XDP only where it has a mapping.
pub proof fn law_nothing_is_removed_unasked(config: &Config, r: Targets)
    requires
        call_ensures(removed_on_exit, (config,), r),
    ensures
        r.nftables <==> config.nftables.cleanup_on_exit,
        r.xdp <==> config.xdp.cleanup_on_exit && crate::config::on_xdp(
            config.xdp.rules@,
            Direction::Inbound,
        ),
{
    crate::config::law_any_xdp_mapping_counts(config.xdp.rules@, Direction::Inbound);
}

/// What is reported of a task is whether it was done: it was refused exactly where the list could
/// not be read or was refused, or where flowtables stood in the way.
pub proof fn law_reports_are_true(outcome: &Outcome, r: Report)
    requires
        call_ensures(Outcome::report, (outcome,), r),
    ensures
        r is Done || r is Refused,
        r is Refused <==> *outcome is Unread || (*outcome matches Outcome::Reloaded(result)
            && result is Err) || (*outcome matches Outcome::Reconciled(result) && result is Err),
{
}

/// A list that is to be handed to the table is: where it was read, the daemon reloads it, for the
/// direction it is for; where it was not, nothing changes.
pub proof fn law_every_reload_reaches_the_daemon<B: Backend>(
    before: Daemon<B>,
    direction: Direction,
    lines: Option<&Vec<String>>,
    after: Daemon<B>,
    outcome: Outcome,
)
    requires
        performed(
            before,
            Task::Reload { target: Target::Nftables, direction },
            lines,
            after,
            outcome,
        ),
    ensures
        lines is None ==> outcome is Unread && after == before,
        lines is Some ==> outcome is Reloaded,
        lines is Some && crate::daemon::read_of(lines->0@).fault is Some ==> outcome->Reloaded_0
            is Err && after.snapshot() == before.snapshot() && after.calls() == before.calls(),
        lines is Some && crate::daemon::read_of(lines->0@).fault is None ==> {
            &&& after.calls().len() == before.calls().len() + 1
            &&& after.calls().last() is ApplyDirection
            &&& after.calls().last()->ApplyDirection_direction == direction
            &&& outcome->Reloaded_0 is Ok <==> after.calls().last()->ApplyDirection_refusal is None
        },
{
    match lines {
        Some(lines) => {
            if crate::daemon::read_of(lines@).fault is None {
                crate::daemon::law_a_readable_list_reaches_the_backend(
                    before,
                    after,
                    direction,
                    lines@,
                    outcome->Reloaded_0,
                );
            }
        },
        None => {},
    }
}

/// A reconciliation of the table always asks about flowtables first, unless they may bypass the
/// firewall, and never changes what was loaded. What concerns XDP leaves the table alone.
pub proof fn law_every_reconciliation_is_performed<B: Backend>(
    before: Daemon<B>,
    lines: Option<&Vec<String>>,
    after: Daemon<B>,
    outcome: Outcome,
)
    requires
        performed(before, Task::Reconcile(Target::Nftables), lines, after, outcome),
    ensures
        outcome is Reconciled,
        after.snapshot() == before.snapshot(),
        !before.config().nftables.allow_flowtable_bypass ==> {
            &&& after.calls().len() > before.calls().len()
            &&& after.calls()[before.calls().len() as int] is FlowtableConflicts
            &&& after.calls()[before.calls().len() as int]->protected == before.protected()
        },
{
    let result = outcome->Reconciled_0;
    let between = choose|between: Seq<Call>| #[trigger]
        crate::daemon::reconcile_ends(before, between, after, result);
    crate::daemon::law_any_conflict_is_refused(
        before.config(),
        before.calls(),
        between,
        before.protected(),
        crate::daemon::check_refusal(result),
    );
}

/// What is to be done for XDP, and waiting, leave the table alone.
pub proof fn law_other_tasks_leave_the_table_alone<B: Backend>(
    before: Daemon<B>,
    task: Task,
    lines: Option<&Vec<String>>,
    after: Daemon<B>,
    outcome: Outcome,
)
    requires
        performed(before, task, lines, after, outcome),
        task is Wait || task is Stop || task == Task::Reconcile(Target::Xdp) || task is Reload
            && task->target == Target::Xdp,
    ensures
        after == before,
        outcome is Untouched,
{
}

/// The task is being done, or is one of those that follow.
pub open spec fn will_do(session: Session, task: Task) -> bool {
    session.task() == task || session.todo().contains(task)
}

proof fn lemma_takes_all(session: Session, tasks: Seq<Task>, task: Task)
    requires
        takes(session, tasks),
        tasks.contains(task),
    ensures
        will_do(session, task),
{
    let k = choose|k: int| 0 <= k < tasks.len() && tasks[k] == task;
    if k > 0 {
        assert(tasks.drop_first()[k - 1] == task);
    }
}

/// A list whose file an event names, among whatever others, is read again for everything that
/// enforces it as soon as the change has settled.
pub proof fn law_settled_changes_are_read(
    before: Session,
    paths: Vec<String>,
    k: int,
    path: Seq<char>,
    arrival: u64,
    now: u64,
    after: Session,
    config: Config,
    target: Target,
    direction: Direction,
)
    requires
        arrival + config.runtime.debounce <= u64::MAX,
        now + config.runtime.reconcile <= u64::MAX,
        stepped(
            before,
            Report::Watched { input: WatchInput::Changed(paths), arrival, now },
            after,
            config,
        ),
        crate::watch::is_list(config, direction, path),
        0 <= k < paths@.len(),
        crate::watch::paths_equal(paths@[k]@, path),
        has_mapping(config, target, direction),
    ensures
        arrival + config.runtime.debounce <= now ==> will_do(
            after,
            Task::Reload { target, direction },
        ),
        arrival + config.runtime.debounce > now ==> after.watch().wait(direction) == Some(
            (arrival + config.runtime.debounce) as u64,
        ),
{
    let input = WatchInput::Changed(paths);
    crate::watch::law_a_named_list_waits_to_settle(
        before.watch(),
        config,
        paths,
        k,
        direction,
        path,
        arrival,
        now,
    );
    let due = due_of(before, input, arrival, now, config);
    if arrival + config.runtime.debounce <= now {
        law_each_gets_its_list(config, due, target, direction);
        lemma_takes_all(after, tasks(config, due), Task::Reload { target, direction });
    }
}

/// What is due after a report of the watcher.
spec fn due_of(before: Session, input: WatchInput, arrival: u64, now: u64, config: Config) -> Due {
    crate::watch::due(
        before.watch(),
        crate::watch::changes(input, crate::watch::watched(config, Direction::Inbound)),
        crate::watch::changes(input, crate::watch::watched(config, Direction::Outbound)),
        (arrival + config.runtime.debounce) as u64,
        now,
    )
}

/// A list that waits is read for everything that enforces it once its time has come, unless it has
/// changed again; and the table is put back in place once the time for that has come.
pub proof fn law_waiting_lists_are_read_in_time(
    before: Session,
    input: WatchInput,
    path: Seq<char>,
    at: u64,
    arrival: u64,
    now: u64,
    after: Session,
    config: Config,
    target: Target,
    direction: Direction,
)
    requires
        arrival + config.runtime.debounce <= u64::MAX,
        now + config.runtime.reconcile <= u64::MAX,
        stepped(before, Report::Watched { input, arrival, now }, after, config),
        !(input is Disconnected),
        crate::watch::is_list(config, direction, path),
        !crate::watch::concerns(input, path),
        before.watch().wait(direction) == Some(at),
        has_mapping(config, target, direction),
    ensures
        at <= now ==> will_do(after, Task::Reload { target, direction }),
        at > now ==> after.watch().wait(direction) == Some(at),
        before.watch().next_reconcile <= now ==> will_do(after, Task::Reconcile(Target::Nftables)),
        before.watch().next_reconcile <= now ==> after.watch().next_reconcile == now
            + config.runtime.reconcile,
{
    crate::watch::law_an_unnamed_list_waits_on(
        before.watch(),
        config,
        input,
        direction,
        path,
        arrival,
        now,
    );
    let due = due_of(before, input, arrival, now, config);
    if at <= now {
        law_each_gets_its_list(config, due, target, direction);
        lemma_takes_all(after, tasks(config, due), Task::Reload { target, direction });
    }
    if before.watch().next_reconcile <= now {
        law_a_due_reconciliation_is_done(config, due, End::Requested);
        lemma_takes_all(after, tasks(config, due), Task::Reconcile(Target::Nftables));
    }
}

/// Where nothing is due, the session waits.
pub proof fn law_nothing_is_done_without_need(
    before: Session,
    input: WatchInput,
    arrival: u64,
    now: u64,
    after: Session,
    config: Config,
)
    requires
        stepped(before, Report::Watched { input, arrival, now }, after, config),
        !(input is Changed),
        !(input is Disconnected),
        before.watch().inbound matches Some(at) ==> at > now,
        before.watch().outbound matches Some(at) ==> at > now,
        before.watch().next_reconcile > now,
    ensures
        after.task() == Task::Wait,
        after.todo().len() == 0,
        after.watch() == before.watch(),
{
    let due = due_of(before, input, arrival, now, config);
    let all = tasks(config, due);
    if all.len() > 0 {
        assert(all.contains(all[0]));
        lemma_tasks(config, due, all[0]);
    }
}

/// A new list is due in exactly those that have a mapping of it.
pub proof fn law_lists_are_due_where_they_are_mapped(
    config: &Config,
    direction: Direction,
    r: Targets,
)
    requires
        call_ensures(targets_due, (config, direction), r),
    ensures
        r.nftables <==> crate::config::on_some_chain(config.rules, direction),
        r.xdp <==> crate::config::on_xdp(config.xdp.rules@, direction),
{
    law_each_enforces_its_mappings(*config, Target::Nftables, direction);
    law_each_enforces_its_mappings(*config, Target::Xdp, direction);
}

} // verus!
