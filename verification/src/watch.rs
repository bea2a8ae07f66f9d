//! Watching the list files: which changes matter, and when to act on them.
use crate::config::Config;
use crate::config::Direction;
use vstd::prelude::*;

verus! {

/// `std::path::Path` equality: whether two texts are the same path, component by component.
pub uninterp spec fn paths_equal(a: Seq<char>, b: Seq<char>) -> bool;

/// `std::path::Path::parent`: the path without its last component, where it has one to lose.
pub uninterp spec fn path_parent(path: Seq<char>) -> Option<Seq<char>>;

/// `std::path::Path::file_name`: the last component, where it is a name.
pub uninterp spec fn path_file_name(path: Seq<char>) -> Option<Seq<char>>;

/// `<std::path::Path as PartialEq>::eq` on the paths that the texts spell, by the rules of the one
/// platform that has nftables and XDP. Paths are compared component by component, and a path with
/// a file name is its parent and that last component: where two paths agree in both, they are the
/// same.
#[verifier::external_body]
fn equal_paths(a: &str, b: &str) -> (r: bool)
    ensures
        r == paths_equal(a@, b@),
        path_file_name(a@) is Some && path_file_name(a@) == path_file_name(b@) && parents_equal(
            path_parent(a@),
            path_parent(b@),
        ) ==> r,
{
    std::path::Path::new(a) == std::path::Path::new(b)
}

/// `std::path::Path::parent` on the path that the text spells. What is left of a text is text
/// again.
#[verifier::external_body]
fn parent_of(path: &str) -> (r: Option<String>)
    ensures
        match r {
            Some(parent) => path_parent(path@) == Some(parent@),
            None => path_parent(path@) is None,
        },
{
    std::path::Path::new(path).parent().and_then(|parent| parent.to_str()).map(str::to_owned)
}

/// `std::path::Path::file_name` on the path that the text spells. What is left of a text is text
/// again.
#[verifier::external_body]
fn file_name_of(path: &str) -> (r: Option<String>)
    ensures
        match r {
            Some(name) => path_file_name(path@) == Some(name@),
            None => path_file_name(path@) is None,
        },
{
    std::path::Path::new(path).file_name().and_then(|name| name.to_str()).map(str::to_owned)
}

/// Both parents are missing, or both are there and the same path.
pub open spec fn parents_equal(a: Option<Seq<char>>, b: Option<Seq<char>>) -> bool {
    match (a, b) {
        (Some(a), Some(b)) => paths_equal(a, b),
        (None, None) => true,
        _ => false,
    }
}

/// A change of the first path is a change of the second: they are the same, or the same name in
/// the same directory.
pub open spec fn targets(event_path: Seq<char>, target: Seq<char>) -> bool {
    targets_by(
        paths_equal(event_path, target),
        parents_equal(path_parent(event_path), path_parent(target)),
        path_file_name(event_path) == path_file_name(target),
    )
}

/// How the comparisons of two paths, of their parents and of their names decide.
pub open spec fn targets_by(same: bool, same_parent: bool, same_name: bool) -> bool {
    same || same_parent && same_name
}

/// How the comparisons of two paths, of their parents and of their names decide.
pub fn decide_target(same: bool, same_parent: bool, same_name: bool) -> (r: bool)
    ensures
        r == targets_by(same, same_parent, same_name),
{
    same || (same_parent && same_name)
}

/// Whether a change of the first path is a change of the second.
pub fn same_target(event_path: &str, target: &str) -> (r: bool)
    ensures
        r == targets(event_path@, target@),
        path_file_name(target@) is Some ==> r == paths_equal(event_path@, target@),
{
    let same_parent = match (parent_of(event_path), parent_of(target)) {
        (Some(a), Some(b)) => equal_paths(a.as_str(), b.as_str()),
        (None, None) => true,
        _ => false,
    };
    let same_name = match (file_name_of(event_path), file_name_of(target)) {
        (Some(a), Some(b)) => a == b,
        (None, None) => true,
        _ => false,
    };
    decide_target(equal_paths(event_path, target), same_parent, same_name)
}

/// One of the changed paths is the target.
pub open spec fn touches(paths: Seq<String>, target: Option<Seq<char>>) -> bool {
    target matches Some(target) && exists|k: int|
        0 <= k < paths.len() && targets((#[trigger] paths[k])@, target)
}

/// The directions of the two marks, inbound first.
pub open spec fn directions(inbound: bool, outbound: bool) -> Seq<Direction> {
    (if inbound {
        seq![Direction::Inbound]
    } else {
        Seq::empty()
    }) + (if outbound {
        seq![Direction::Outbound]
    } else {
        Seq::empty()
    })
}

pub open spec fn text_of(path: Option<&String>) -> Option<Seq<char>> {
    match path {
        Some(path) => Some(path@),
        None => None,
    }
}

/// One of the changed paths is the same path as the target.
pub open spec fn names(paths: Seq<String>, target: Seq<char>) -> bool {
    exists|k: int| 0 <= k < paths.len() && paths_equal((#[trigger] paths[k])@, target)
}

fn any_targets(paths: &Vec<String>, target: &String) -> (r: bool)
    ensures
        r == touches(paths@, Some(target@)),
        path_file_name(target@) is Some ==> r == names(paths@, target@),
{
    let mut k: usize = 0;
    while k < paths.len()
        invariant
            k <= paths@.len(),
            forall|j: int| 0 <= j < k ==> !targets((#[trigger] paths@[j])@, target@),
        decreases paths@.len() - k,
    {
        if same_target(paths[k].as_str(), target.as_str()) {
            assert(targets(paths@[k as int]@, target@));
            return true;
        }
        k = k + 1;
    }
    false
}

fn any_touches(paths: &Vec<String>, target: Option<&String>) -> (r: bool)
    ensures
        r == touches(paths@, text_of(target)),
        target matches Some(target) ==> path_file_name(target@) is Some ==> r == names(
            paths@,
            target@,
        ),
{
    match target {
        None => false,
        Some(target) => any_targets(paths, target),
    }
}

/// The lists that a filesystem event on these paths concerns, of those that have a path.
pub fn classify_event(paths: &Vec<String>, inbound: Option<&String>, outbound: Option<&String>) -> (r: Vec<
    Direction,
>)
    ensures
        r@ == directions(touches(paths@, text_of(inbound)), touches(paths@, text_of(outbound))),
        inbound matches Some(target) ==> path_file_name(target@) is Some ==> (r@.contains(
            Direction::Inbound,
        ) <==> names(paths@, target@)),
        outbound matches Some(target) ==> path_file_name(target@) is Some ==> (r@.contains(
            Direction::Outbound,
        ) <==> names(paths@, target@)),
{
    let mut found: Vec<Direction> = Vec::new();
    if any_touches(paths, inbound) {
        found.push(Direction::Inbound);
    }
    if any_touches(paths, outbound) {
        found.push(Direction::Outbound);
    }
    assert(found@ =~= directions(
        touches(paths@, text_of(inbound)),
        touches(paths@, text_of(outbound)),
    ));
    proof {
        lemma_directions_hold(
            touches(paths@, text_of(inbound)),
            touches(paths@, text_of(outbound)),
        );
    }
    found
}

proof fn lemma_directions_hold(inbound: bool, outbound: bool)
    ensures
        directions(inbound, outbound).contains(Direction::Inbound) == inbound,
        directions(inbound, outbound).contains(Direction::Outbound) == outbound,
{
    let all = directions(inbound, outbound);
    if inbound {
        assert(all[0] == Direction::Inbound);
    }
    if outbound {
        assert(all[all.len() - 1] == Direction::Outbound);
    }
}

/// Every path of the first list is spelled in the second.
pub open spec fn among(paths: Seq<String>, others: Seq<String>) -> bool {
    forall|k: int|
        0 <= k < paths.len() ==> crate::text::has_text(others, (#[trigger] paths[k])@)
}

/// Which lists an event concerns depends on the set of its paths alone: neither their order nor how
/// often one occurs matters.
pub proof fn law_only_the_paths_matter(
    paths: Seq<String>,
    others: Seq<String>,
    inbound: Option<Seq<char>>,
    outbound: Option<Seq<char>>,
)
    requires
        among(paths, others),
        among(others, paths),
    ensures
        directions(touches(paths, inbound), touches(paths, outbound)) == directions(
            touches(others, inbound),
            touches(others, outbound),
        ),
{
    lemma_touches_among(paths, others, inbound);
    lemma_touches_among(others, paths, inbound);
    lemma_touches_among(paths, others, outbound);
    lemma_touches_among(others, paths, outbound);
}

proof fn lemma_touches_among(paths: Seq<String>, others: Seq<String>, target: Option<Seq<char>>)
    requires
        among(paths, others),
    ensures
        touches(paths, target) ==> touches(others, target),
{
    if touches(paths, target) {
        let text = target->0;
        let k = choose|k: int| 0 <= k < paths.len() && targets((#[trigger] paths[k])@, text);
        assert(crate::text::has_text(others, paths[k]@));
        let j = choose|j: int| 0 <= j < others.len() && (#[trigger] others[j])@ == paths[k]@;
        assert(targets(others[j]@, text));
    }
}

/// The path of a list that some mapping references; other lists are not watched.
pub open spec fn watched(config: Config, direction: Direction) -> Option<Seq<char>> {
    if config.references(direction) {
        match config.path_of(direction) {
            Some(path) => Some(path@),
            None => None,
        }
    } else {
        None
    }
}

/// The path of a list that some mapping references.
pub fn watched_path(config: &Config, direction: Direction) -> (r: Option<&String>)
    ensures
        text_of(r) == watched(*config, direction),
{
    if config.uses_at_all(direction) {
        config.blocklist_path(direction)
    } else {
        None
    }
}

/// The directory of a watched list.
pub open spec fn watched_parent(config: Config, direction: Direction) -> Option<Seq<char>> {
    match watched(config, direction) {
        Some(path) => path_parent(path),
        None => None,
    }
}

/// The directories to watch, each once.
pub open spec fn directories(inbound: Option<Seq<char>>, outbound: Option<Seq<char>>) -> Seq<
    Seq<char>,
> {
    match (inbound, outbound) {
        (Some(a), Some(b)) => if paths_equal(a, b) {
            seq![a]
        } else {
            seq![a, b]
        },
        (Some(a), None) => seq![a],
        (None, Some(b)) => seq![b],
        (None, None) => Seq::empty(),
    }
}

/// The directories of the watched lists, each once.
pub fn watched_directories(config: &Config) -> (r: Vec<String>)
    ensures
        crate::wire::texts(r@) == directories(
            watched_parent(*config, Direction::Inbound),
            watched_parent(*config, Direction::Outbound),
        ),
{
    let inbound = match watched_path(config, Direction::Inbound) {
        Some(path) => parent_of(path.as_str()),
        None => None,
    };
    let outbound = match watched_path(config, Direction::Outbound) {
        Some(path) => parent_of(path.as_str()),
        None => None,
    };
    let mut r: Vec<String> = Vec::new();
    match inbound {
        Some(a) => {
            let again = match &outbound {
                Some(b) => equal_paths(a.as_str(), b.as_str()),
                None => true,
            };
            r.push(a);
            if !again {
                match outbound {
                    Some(b) => r.push(b),
                    None => {},
                }
            }
        },
        None => {
            match outbound {
                Some(b) => r.push(b),
                None => {},
            }
        },
    }
    assert(crate::wire::texts(r@) =~= directories(
        watched_parent(*config, Direction::Inbound),
        watched_parent(*config, Direction::Outbound),
    ));
    r
}

/// What the watcher reports.
#[derive(Debug, Clone, PartialEq, Eq)]
pub enum WatchInput {
    /// These paths changed.
    Changed(Vec<String>),
    /// The watcher reports an error; it goes on.
    Failed,
    /// Nothing happened for a while.
    Idle,
    /// The watcher is gone.
    Disconnected,
}

/// What is to be done now.
#[derive(Debug, Clone, Copy, PartialEq, Eq, Structural)]
pub struct Due {
    pub inbound: bool,
    pub outbound: bool,
    pub reconcile: bool,
}

/// Reloads that wait for changes to settle, and when the table is next put back in place. Times
/// are in milliseconds on a clock that does not go back.
#[derive(Debug, Clone, Copy, PartialEq, Eq, Structural)]
pub struct Watch {
    pub inbound: Option<u64>,
    pub outbound: Option<u64>,
    pub next_reconcile: u64,
}

/// The deadline of a list after it changed, or did not.
pub open spec fn deadline(pending: Option<u64>, changed: bool, settled: u64) -> Option<u64> {
    if changed {
        Some(settled)
    } else {
        pending
    }
}

/// The deadline has come.
pub open spec fn is_due(pending: Option<u64>, now: u64) -> bool {
    pending matches Some(at) && at <= now
}

/// What is due after the changes are taken in.
pub open spec fn due(
    watch: Watch,
    inbound: bool,
    outbound: bool,
    settled: u64,
    now: u64,
) -> Due {
    Due {
        inbound: is_due(deadline(watch.inbound, inbound, settled), now),
        outbound: is_due(deadline(watch.outbound, outbound, settled), now),
        reconcile: now >= watch.next_reconcile,
    }
}

/// What waits after the changes are taken in and what is due is taken out.
pub open spec fn waiting(
    watch: Watch,
    inbound: bool,
    outbound: bool,
    settled: u64,
    now: u64,
    next: u64,
) -> Watch {
    let due = due(watch, inbound, outbound, settled, now);
    Watch {
        inbound: if due.inbound {
            None
        } else {
            deadline(watch.inbound, inbound, settled)
        },
        outbound: if due.outbound {
            None
        } else {
            deadline(watch.outbound, outbound, settled)
        },
        next_reconcile: if due.reconcile {
            next
        } else {
            watch.next_reconcile
        },
    }
}

/// The list with this path changed.
pub open spec fn changes(input: WatchInput, path: Option<Seq<char>>) -> bool {
    match input {
        WatchInput::Changed(paths) => touches(paths@, path),
        _ => false,
    }
}

fn holds(list: &Vec<Direction>, direction: Direction) -> (r: bool)
    ensures
        r == list@.contains(direction),
{
    let mut k: usize = 0;
    while k < list.len()
        invariant
            k <= list@.len(),
            forall|j: int| 0 <= j < k ==> list@[j] != direction,
        decreases list@.len() - k,
    {
        if list[k] == direction {
            assert(list@[k as int] == direction);
            return true;
        }
        k = k + 1;
    }
    false
}

/// Some mapping, of a chain or of XDP, is for the list, and this is its path.
pub open spec fn is_list(config: Config, direction: Direction, path: Seq<char>) -> bool {
    &&& crate::config::on_some_chain(config.rules, direction) || crate::config::on_xdp(
        config.xdp.rules@,
        direction,
    )
    &&& match direction {
        Direction::Inbound => config.files.inbound is Some && config.files.inbound->0@ == path,
        Direction::Outbound => config.files.outbound is Some && config.files.outbound->0@ == path,
    }
}

impl Watch {
    /// When the list is to be read again, if it is.
    pub open spec fn wait(self, direction: Direction) -> Option<u64> {
        match direction {
            Direction::Inbound => self.inbound,
            Direction::Outbound => self.outbound,
        }
    }
}

impl Due {
    /// The list is to be read now.
    pub open spec fn reload(self, direction: Direction) -> bool {
        match direction {
            Direction::Inbound => self.inbound,
            Direction::Outbound => self.outbound,
        }
    }
}

impl Watch {
    /// Takes in what the watcher reported at `arrival`, and says what is due at `now`. A reload
    /// that is due no longer waits. Only a watcher that is gone is an error, and then nothing
    /// changes.
    pub fn step(&mut self, config: &Config, input: &WatchInput, arrival: u64, now: u64) -> (r: Option<
        Due,
    >)
        requires
            arrival + config.runtime.debounce <= u64::MAX,
            now + config.runtime.reconcile <= u64::MAX,
        ensures
            if input is Disconnected {
                r is None && *final(self) == *old(self)
            } else {
                let inbound = changes(*input, watched(*config, Direction::Inbound));
                let outbound = changes(*input, watched(*config, Direction::Outbound));
                let settled = (arrival + config.runtime.debounce) as u64;
                let next = (now + config.runtime.reconcile) as u64;
                &&& r == Some(due(*old(self), inbound, outbound, settled, now))
                &&& *final(self) == waiting(*old(self), inbound, outbound, settled, now, next)
            },
            forall|direction: Direction, path: Seq<char>, k: int|
                #![trigger is_list(*config, direction, path), input->Changed_0@[k]]
                is_list(*config, direction, path) && input is Changed && 0 <= k
                    < input->Changed_0@.len() && paths_equal(input->Changed_0@[k]@, path) ==> {
                    let settled = arrival + config.runtime.debounce;
                    &&& r is Some
                    &&& r->0.reload(direction) <==> settled <= now
                    &&& settled > now ==> final(self).wait(direction) == Some(settled as u64)
                    &&& settled <= now ==> final(self).wait(direction) is None
                },
    {
        proof {
            assert forall|direction: Direction, path: Seq<char>, k: int|
                #![trigger is_list(*config, direction, path), input->Changed_0@[k]]
                is_list(*config, direction, path) && input is Changed && 0 <= k
                    < input->Changed_0@.len() && paths_equal(
                    input->Changed_0@[k]@,
                    path,
                ) implies {
                let inbound = changes(*input, watched(*config, Direction::Inbound));
                let outbound = changes(*input, watched(*config, Direction::Outbound));
                let settled = (arrival + config.runtime.debounce) as u64;
                let next = (now + config.runtime.reconcile) as u64;
                let after = waiting(*self, inbound, outbound, settled, now, next);
                &&& due(*self, inbound, outbound, settled, now).reload(direction) <==> settled
                    <= now
                &&& after.wait(direction) == (if settled <= now {
                    None
                } else {
                    Some(settled)
                })
            } by {
                law_a_named_list_waits_to_settle(
                    *self,
                    *config,
                    input->Changed_0,
                    k,
                    direction,
                    path,
                    arrival,
                    now,
                );
            }
        }
        match input {
            WatchInput::Disconnected => {
                return None;
            },
            WatchInput::Changed(paths) => {
                let found = classify_event(
                    paths,
                    watched_path(config, Direction::Inbound),
                    watched_path(config, Direction::Outbound),
                );
                proof {
                    lemma_directions_hold(
                        touches(paths@, watched(*config, Direction::Inbound)),
                        touches(paths@, watched(*config, Direction::Outbound)),
                    );
                }
                let settled: u64 = arrival + config.runtime.debounce;
                if holds(&found, Direction::Inbound) {
                    self.inbound = Some(settled);
                }
                if holds(&found, Direction::Outbound) {
                    self.outbound = Some(settled);
                }
            },
            WatchInput::Failed => {},
            WatchInput::Idle => {},
        }
        let inbound = match self.inbound {
            Some(at) => at <= now,
            None => false,
        };
        let outbound = match self.outbound {
            Some(at) => at <= now,
            None => false,
        };
        let reconcile = now >= self.next_reconcile;
        if inbound {
            self.inbound = None;
        }
        if outbound {
            self.outbound = None;
        }
        if reconcile {
            self.next_reconcile = now + config.runtime.reconcile;
        }
        Some(Due { inbound, outbound, reconcile })
    }
}

/// A change is acted on only once it has settled: not before its deadline, however early an older
/// one was.
pub proof fn law_changes_settle_first(watch: Watch, outbound: bool, settled: u64, now: u64)
    requires
        now < settled,
    ensures
        !due(watch, true, outbound, settled, now).inbound,
        !due(watch, outbound, true, settled, now).outbound,
        waiting(watch, true, outbound, settled, now, 0).inbound == Some(settled),
        waiting(watch, outbound, true, settled, now, 0).outbound == Some(settled),
{
}

/// What waits is acted on at its deadline, and then not again until the list changes again.
pub proof fn law_changes_are_acted_on_once(
    watch: Watch,
    at: u64,
    settled: u64,
    now: u64,
    later: u64,
    next: u64,
)
    requires
        watch.inbound == Some(at),
        watch.outbound == Some(at),
        at <= now,
    ensures
        due(watch, false, false, settled, now).inbound,
        due(watch, false, false, settled, now).outbound,
        !due(waiting(watch, false, false, settled, now, next), false, false, settled, later).inbound,
        !due(waiting(watch, false, false, settled, now, next), false, false, settled, later).outbound,
{
}

proof fn lemma_watched(config: Config, direction: Direction, path: Seq<char>)
    requires
        is_list(config, direction, path),
    ensures
        watched(config, direction) == Some(path),
{
    crate::config::law_any_mapping_references_its_list(config, direction);
}

/// Where one of the paths of an event is that of a list in use, the list is read again once the
/// change has settled, whatever other paths the event has, whatever waited before, and whatever
/// happens to the other list.
pub proof fn law_a_named_list_waits_to_settle(
    watch: Watch,
    config: Config,
    paths: Vec<String>,
    k: int,
    direction: Direction,
    path: Seq<char>,
    arrival: u64,
    now: u64,
)
    requires
        arrival + config.runtime.debounce <= u64::MAX,
        now + config.runtime.reconcile <= u64::MAX,
        is_list(config, direction, path),
        0 <= k < paths@.len(),
        paths_equal(paths@[k]@, path),
    ensures
        ({
            let input = WatchInput::Changed(paths);
            let inbound = changes(input, watched(config, Direction::Inbound));
            let outbound = changes(input, watched(config, Direction::Outbound));
            let settled = (arrival + config.runtime.debounce) as u64;
            let next = (now + config.runtime.reconcile) as u64;
            let after = waiting(watch, inbound, outbound, settled, now, next);
            &&& due(watch, inbound, outbound, settled, now).reload(direction) <==> settled <= now
            &&& after.wait(direction) == (if settled <= now {
                None
            } else {
                Some(settled)
            })
        }),
{
    lemma_watched(config, direction, path);
    assert(targets(paths@[k]@, path));
    assert(touches(paths@, Some(path)));
}

/// One of the changed paths is that of the list, or the same name in the same directory.
pub open spec fn concerns(input: WatchInput, path: Seq<char>) -> bool {
    input is Changed && exists|k: int|
        0 <= k < input->Changed_0@.len() && {
            let changed = (#[trigger] input->Changed_0@[k])@;
            ||| paths_equal(changed, path)
            ||| parents_equal(path_parent(changed), path_parent(path)) && path_file_name(changed)
                == path_file_name(path)
        }
}

/// A list that no path of an event is, and any list where nothing is known to have changed, waits as
/// it did before: it is read exactly where its time has come, and then no longer waits.
pub proof fn law_an_unnamed_list_waits_on(
    watch: Watch,
    config: Config,
    input: WatchInput,
    direction: Direction,
    path: Seq<char>,
    arrival: u64,
    now: u64,
)
    requires
        is_list(config, direction, path),
        !concerns(input, path),
        arrival + config.runtime.debounce <= u64::MAX,
        now + config.runtime.reconcile <= u64::MAX,
    ensures
        ({
            let inbound = changes(input, watched(config, Direction::Inbound));
            let outbound = changes(input, watched(config, Direction::Outbound));
            let settled = (arrival + config.runtime.debounce) as u64;
            let next = (now + config.runtime.reconcile) as u64;
            let after = waiting(watch, inbound, outbound, settled, now, next);
            let due = due(watch, inbound, outbound, settled, now);
            &&& due.reload(direction) <==> watch.wait(direction) is Some && watch.wait(direction)->0
                <= now
            &&& !due.reload(direction) ==> after.wait(direction) == watch.wait(direction)
            &&& due.reload(direction) ==> after.wait(direction) is None
        }),
{
    lemma_watched(config, direction, path);
    match input {
        WatchInput::Changed(paths) => {
            if touches(paths@, Some(path)) {
                let k = choose|k: int|
                    0 <= k < paths@.len() && targets((#[trigger] paths@[k])@, path);
                assert(input->Changed_0@[k] == paths@[k]);
            }
        },
        _ => {},
    }
}

/// The table is put back in place exactly where its time has come, and then again after the
/// configured time, whatever the lists do.
pub proof fn law_reconciliation_keeps_its_pace(
    watch: Watch,
    inbound: bool,
    outbound: bool,
    settled: u64,
    now: u64,
    next: u64,
)
    ensures
        due(watch, inbound, outbound, settled, now).reconcile <==> watch.next_reconcile <= now,
        waiting(watch, inbound, outbound, settled, now, next).next_reconcile == next
            || watch.next_reconcile > now && waiting(
            watch,
            inbound,
            outbound,
            settled,
            now,
            next,
        ).next_reconcile == watch.next_reconcile,
        watch.next_reconcile <= now ==> waiting(
            watch,
            inbound,
            outbound,
            settled,
            now,
            next,
        ).next_reconcile == next,
{
}

/// Two paths are the same target where they are the same, or where both their directories and their
/// names are; the one without the other is not enough.
pub proof fn law_directory_and_name_decide_together(same: bool, parent: bool, name: bool, r: bool)
    requires
        call_ensures(decide_target, (same, parent, name), r),
    ensures
        same ==> r,
        !same && !parent ==> !r,
        !same && !name ==> !r,
        parent && name ==> r,
{
}

/// The directory of every list in use is watched, also where the other list has another directory or
/// none.
pub proof fn law_every_list_directory_is_watched(
    config: Config,
    direction: Direction,
    path: Seq<char>,
    parent: Seq<char>,
)
    requires
        is_list(config, direction, path),
        path_parent(path) == Some(parent),
    ensures
        ({
            let watched = directories(
                watched_parent(config, Direction::Inbound),
                watched_parent(config, Direction::Outbound),
            );
            exists|k: int|
                0 <= k < watched.len() && (#[trigger] watched[k] == parent || paths_equal(
                    watched[k],
                    parent,
                ))
        }),
{
    lemma_watched(config, direction, path);
    let a = watched_parent(config, Direction::Inbound);
    let b = watched_parent(config, Direction::Outbound);
    let watched = directories(a, b);
    if direction == Direction::Inbound {
        assert(watched[0] == parent);
    } else if a is None {
        assert(watched[0] == parent);
    } else if paths_equal(a->0, parent) {
        assert(paths_equal(watched[0], parent));
    } else {
        assert(watched[1] == parent);
    }
}

/// Nothing but the directories of lists in use is watched, and none of them twice.
pub proof fn law_only_list_directories_are_watched(config: Config, k: int)
    requires
        0 <= k < directories(
            watched_parent(config, Direction::Inbound),
            watched_parent(config, Direction::Outbound),
        ).len(),
    ensures
        ({
            let watched = directories(
                watched_parent(config, Direction::Inbound),
                watched_parent(config, Direction::Outbound),
            );
            &&& exists|direction: Direction, path: Seq<char>| #[trigger]
                is_list(config, direction, path) && path_parent(path) == Some(watched[k])
            &&& watched.len() <= 2
            &&& watched.len() == 2 ==> !paths_equal(watched[0], watched[1])
        }),
{
    let a = watched_parent(config, Direction::Inbound);
    let b = watched_parent(config, Direction::Outbound);
    crate::config::law_any_mapping_references_its_list(config, Direction::Inbound);
    crate::config::law_any_mapping_references_its_list(config, Direction::Outbound);
    if k == 0 && a is Some {
        let path = config.files.inbound->0@;
        assert(is_list(config, Direction::Inbound, path));
    } else {
        let path = config.files.outbound->0@;
        assert(is_list(config, Direction::Outbound, path));
    }
}

/// Exactly the lists in use are watched: those that some mapping names, at their paths.
pub proof fn law_exactly_the_lists_in_use_are_watched(
    config: Config,
    direction: Direction,
    path: Seq<char>,
)
    ensures
        watched(config, direction) == Some(path) <==> is_list(config, direction, path),
{
    crate::config::law_any_mapping_references_its_list(config, direction);
}

/// Paths without a directory are in the same place, a path with one and a path without are not, and
/// otherwise the directories decide.
pub proof fn law_directories_are_compared_as_paths(a: Seq<char>, b: Seq<char>)
    ensures
        parents_equal(None, None),
        !parents_equal(Some(a), None),
        !parents_equal(None, Some(b)),
        parents_equal(Some(a), Some(b)) <==> paths_equal(a, b),
{
}

/// An event that names the path of a list in use, among whatever others, makes the list wait until
/// the change has settled, or has it read at once where it has.
pub proof fn law_steps_take_changes_in()
    ensures
        forall|
            watch: &mut Watch,
            config: &Config,
            input: &WatchInput,
            arrival: u64,
            now: u64,
            r: Option<Due>,
            direction: Direction,
            path: Seq<char>,
            k: int,
        |
            #![trigger call_ensures(Watch::step, (watch, config, input, arrival, now), r), is_list(*config, direction, path), input->Changed_0@[k]]
            call_ensures(Watch::step, (watch, config, input, arrival, now), r) && is_list(
                *config,
                direction,
                path,
            ) && *input is Changed && 0 <= k < input->Changed_0@.len() && paths_equal(
                input->Changed_0@[k]@,
                path,
            ) ==> {
                let settled = arrival + config.runtime.debounce;
                &&& r is Some
                &&& r->0.reload(direction) <==> settled <= now
                &&& settled > now ==> (*final(watch)).wait(direction) == Some(settled as u64)
                &&& settled <= now ==> (*final(watch)).wait(direction) is None
            },
{
}

/// The lists that an event concerns are those whose paths it names, whatever other paths it has.
pub proof fn law_events_concern_the_lists_they_name(
    paths: &Vec<String>,
    inbound: &String,
    outbound: &String,
    found: Vec<Direction>,
    k: int,
)
    requires
        call_ensures(classify_event, (paths, Some(inbound), Some(outbound)), found),
        0 <= k < paths@.len(),
    ensures
        paths_equal(paths@[k]@, inbound@) ==> found@.contains(Direction::Inbound),
        paths_equal(paths@[k]@, outbound@) ==> found@.contains(Direction::Outbound),
        path_file_name(inbound@) is Some && found@.contains(Direction::Inbound) ==> exists|j: int|
            0 <= j < paths@.len() && paths_equal((#[trigger] paths@[j])@, inbound@),
        path_file_name(outbound@) is Some && found@.contains(Direction::Outbound) ==> exists|j: int|
            0 <= j < paths@.len() && paths_equal((#[trigger] paths@[j])@, outbound@),
        found@.no_duplicates(),
{
    lemma_directions_hold(
        touches(paths@, Some(inbound@)),
        touches(paths@, Some(outbound@)),
    );
    if paths_equal(paths@[k]@, inbound@) {
        assert(targets(paths@[k]@, inbound@));
    }
    if paths_equal(paths@[k]@, outbound@) {
        assert(targets(paths@[k]@, outbound@));
    }
}

} // verus!
