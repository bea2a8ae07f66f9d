//! Replacing lists in the nftables table, action by action.
//!
//! A list is put into sets of a new generation, which no rule refers to. Once the kernel reports
//! these sets complete, one transaction points the rules at them, and the sets of earlier
//! generations go.
use crate::batch::Active;
use crate::batch::AddressSet;
use crate::batch::Snapshot;
use crate::batch::Step;
use crate::batch::Transaction;
use crate::batch::activation_transaction;
use crate::batch::creation_transaction;
use crate::batch::cut;
use crate::batch::deletion_transaction;
use crate::batch::population_transaction;
use crate::batch::setup_transaction;
use crate::blocklist::ParsedBlocklist;
use crate::config::Config;
use crate::config::Direction;
use crate::netlink::BackendError;
use crate::netlink::ENOENT;
use crate::netlink::IoFailure;
use crate::netlink::finds_set;
use crate::netlink::recognizes_layout;
use crate::rules::RenderedRule;
use crate::text::contains_text;
use crate::text::has_nul;
use crate::wire::SetInfo;
use vstd::prelude::*;
use vstd::string::*;

verus! {

/// Where a rollout stands.
#[derive(Debug, Clone, Copy, PartialEq, Eq, Structural)]
pub enum Stage {
    /// The kernel's tables and sets are being listed.
    Inspecting,
    /// The table is being set up.
    SettingUp,
    /// The sets of a new generation are being created.
    Creating,
    /// A part of the list is being put into one of the new sets.
    Populating { v6: bool, from: usize, to: usize },
    /// The kernel's sets are being listed, to see whether the new ones are complete.
    Checking,
    /// The rules are being pointed at the new sets.
    Activating,
    /// The sets of earlier generations are being deleted.
    CleaningUp,
    /// The request failed, and the new sets are being deleted again.
    Discarding,
    /// The request is over.
    Ended,
}

/// What came of the last action.
#[derive(Debug)]
pub enum Event {
    /// What the kernel has.
    Inspected { tables: Vec<String>, sets: Vec<SetInfo> },
    /// The transaction went through.
    Accepted,
    /// The kernel refused.
    Refused(IoFailure),
}

/// What to do next.
#[derive(Debug, PartialEq, Eq)]
pub enum Action {
    /// List the kernel's tables and sets.
    Inspect,
    /// Send a transaction.
    Send(Transaction),
    /// The request is over.
    Finish,
}

/// A request to put lists into force.
#[derive(Debug)]
pub struct Rollout {
    pub stage: Stage,
    /// Whether the kernel takes batches.
    pub supported: bool,
    /// Whether this request has set the table up.
    pub set_up: bool,
    /// Whether the inbound list is still to be replaced.
    pub inbound: bool,
    /// Whether the outbound list is still to be replaced.
    pub outbound: bool,
    /// The list that is being replaced.
    pub direction: Direction,
    /// The generation that is being filled.
    pub generation: u8,
    /// The generations in force.
    pub active: Active,
    /// The sets that go once the new ones are in force.
    pub stale: Vec<AddressSet>,
    /// Why the request fails, if it does.
    pub failure: Option<BackendError>,
}

/// An event that can follow the action of a stage.
pub open spec fn follows(stage: Stage, event: Event) -> bool {
    match stage {
        Stage::Ended => false,
        Stage::Inspecting | Stage::Checking => !(event is Accepted),
        _ => !(event is Inspected),
    }
}

/// Neither set of the generation is there.
pub open spec fn unused(
    sets: Seq<SetInfo>,
    table: Seq<char>,
    direction: Direction,
    generation: u8,
) -> bool {
    &&& !crate::netlink::has_set(
        sets,
        table,
        crate::batch::set_of(direction, false, generation).text(),
    )
    &&& !crate::netlink::has_set(
        sets,
        table,
        crate::batch::set_of(direction, true, generation).text(),
    )
}

/// Both sets of the generation are there.
pub open spec fn complete(
    sets: Seq<SetInfo>,
    table: Seq<char>,
    direction: Direction,
    generation: u8,
) -> bool {
    &&& crate::netlink::has_set(
        sets,
        table,
        crate::batch::set_of(direction, false, generation).text(),
    )
    &&& crate::netlink::has_set(
        sets,
        table,
        crate::batch::set_of(direction, true, generation).text(),
    )
}

/// The first generation of which there is no set, if any.
pub open spec fn is_free(
    sets: Seq<SetInfo>,
    table: Seq<char>,
    direction: Direction,
    free: Option<u8>,
) -> bool {
    match free {
        Some(generation) => {
            &&& unused(sets, table, direction, generation)
            &&& forall|earlier: u8|
                earlier < generation ==> !#[trigger] unused(sets, table, direction, earlier)
        },
        None => forall|generation: u8| !#[trigger] unused(sets, table, direction, generation),
    }
}

/// The generation of a direction that the rules use: the one known to be in force, if its sets are
/// there, and otherwise the only one whose sets are there, if there is just one.
pub open spec fn is_in_force(
    known: Option<u8>,
    sets: Seq<SetInfo>,
    table: Seq<char>,
    direction: Direction,
    r: Option<u8>,
) -> bool {
    if known is Some && complete(sets, table, direction, known->0) {
        r == known
    } else {
        match r {
            Some(generation) => {
                &&& complete(sets, table, direction, generation)
                &&& forall|other: u8| #[trigger]
                    complete(sets, table, direction, other) ==> other == generation
            },
            None => forall|generation: u8| #[trigger]
                complete(sets, table, direction, generation) ==> exists|other: u8|
                    other != generation && #[trigger] complete(sets, table, direction, other),
        }
    }
}

/// The table has the set, with this number of elements.
pub open spec fn has_elements(
    sets: Seq<SetInfo>,
    table: Seq<char>,
    name: Seq<char>,
    elements: nat,
) -> bool {
    exists|k: int|
        0 <= k < sets.len() && (#[trigger] sets[k]).table@ == table && sets[k].name@ == name
            && sets[k].elements is Some && sets[k].elements->0 == elements
}

/// Both sets of a generation are there, each with as many elements as the list has intervals of its
/// family.
pub open spec fn healthy(
    sets: Seq<SetInfo>,
    table: Seq<char>,
    direction: Direction,
    generation: u8,
    list: ParsedBlocklist,
) -> bool {
    &&& has_elements(
        sets,
        table,
        crate::batch::set_of(direction, false, generation).text(),
        list.ipv4@.len(),
    )
    &&& has_elements(
        sets,
        table,
        crate::batch::set_of(direction, true, generation).text(),
        list.ipv6@.len(),
    )
}

/// The sets of the direction's other generations that are there, each once.
pub open spec fn are_stale(
    sets: Seq<SetInfo>,
    table: Seq<char>,
    direction: Direction,
    generation: u8,
    stale: Seq<AddressSet>,
) -> bool {
    &&& stale.no_duplicates()
    &&& forall|set: AddressSet| #[trigger]
        stale.contains(set) <==> set.direction == direction && set.generation != generation
            && crate::netlink::has_set(sets, table, set.text())
}

/// What comes after the part of the list that ends at a place in the sets of one family: its next
/// part, the other family, or the check.
pub open spec fn is_next(
    stage: Stage,
    list: ParsedBlocklist,
    v6: bool,
    from: int,
    limit: nat,
) -> bool {
    if from < crate::batch::family_of(list, v6).len() {
        is_part(stage, list, v6, from, limit)
    } else if !v6 && list.ipv6@.len() > 0 {
        is_part(stage, list, true, 0, limit)
    } else {
        stage == Stage::Checking
    }
}

/// The next part of the list is being put into its set.
pub open spec fn is_part(
    stage: Stage,
    list: ParsedBlocklist,
    v6: bool,
    from: int,
    limit: nat,
) -> bool {
    stage matches Stage::Populating { v6: family, from: start, to } && family == v6 && start
        == from && crate::batch::is_cut(
        crate::batch::family_of(list, v6),
        from,
        to as int,
        limit,
    )
}

pub open spec fn unmarked_text(table: Seq<char>) -> Seq<char> {
    "table inet "@ + table + " exists without the cidrwall layout marker"@
}

pub open spec fn incomplete_text(direction: Direction) -> Seq<char> {
    "staged "@ + direction.text() + " sets are missing or have the wrong number of elements"@
}

/// The request fails with this text, and without an error number.
pub open spec fn fails_with(failure: Option<BackendError>, text: Seq<char>) -> bool {
    failure matches Some(BackendError::Netlink(cause)) && cause.errno is None && cause.message@
        == text
}

impl Rollout {
    /// The list to replace next, if any: inbound before outbound.
    pub open spec fn due(self) -> Option<Direction> {
        if self.inbound {
            Some(Direction::Inbound)
        } else if self.outbound {
            Some(Direction::Outbound)
        } else {
            None
        }
    }

    /// The new set of a family.
    pub open spec fn set(self, v6: bool) -> AddressSet {
        crate::batch::set_of(self.direction, v6, self.generation)
    }

    /// The part of the list that is being put into a set is one.
    pub open spec fn wf(self, snapshot: Snapshot) -> bool {
        self.stage matches Stage::Populating { v6, from, to } ==> from <= to
            <= crate::batch::family_of(snapshot.list(self.direction), v6).len()
    }

    /// The rollout is at its beginning: for one list, or for every list in use. A table name that
    /// the kernel cannot have, or a kernel that takes no batches, ends a request for the whole
    /// table before anything is asked of the kernel.
    pub open spec fn begun(
        self,
        config: Config,
        direction: Option<Direction>,
        supported: bool,
        active: Active,
    ) -> bool {
        &&& self.active == active
        &&& self.supported == supported
        &&& !self.set_up
        &&& self.inbound == (match direction {
            Some(direction) => direction == Direction::Inbound,
            None => config.rules.uses(Direction::Inbound),
        })
        &&& self.outbound == (match direction {
            Some(direction) => direction == Direction::Outbound,
            None => config.rules.uses(Direction::Outbound),
        })
        &&& if direction is None && !supported {
            self.stage == Stage::Ended && fails_with(
                self.failure,
                "kernel does not support nftables batches"@,
            )
        } else if crate::batch::bad_table(config) {
            self.stage == Stage::Ended && fails_with(self.failure, "table name contains NUL"@)
        } else {
            self.stage == Stage::Inspecting && self.failure is None
        }
    }

    /// Begins a request.
    pub fn new(
        config: &Config,
        direction: Option<Direction>,
        supported: bool,
        active: Active,
    ) -> (r: (Self, Action))
        ensures
            r.0.begun(*config, direction, supported, active),
            r.1 == first_action(r.0),
    {
        let (inbound, outbound) = match direction {
            Some(Direction::Inbound) => (true, false),
            Some(Direction::Outbound) => (false, true),
            None => (config.uses(Direction::Inbound), config.uses(Direction::Outbound)),
        };
        let mut rollout = Rollout {
            stage: Stage::Inspecting,
            supported,
            set_up: false,
            inbound,
            outbound,
            direction: Direction::Inbound,
            generation: 0,
            active,
            stale: Vec::new(),
            failure: None,
        };
        if direction.is_none() && !supported {
            rollout.fail("kernel does not support nftables batches");
            return (rollout, Action::Finish);
        }
        if has_nul(config.nftables.table.as_str()) {
            rollout.fail("table name contains NUL");
            return (rollout, Action::Finish);
        }
        (rollout, Action::Inspect)
    }

    /// Ends the request with a text.
    fn fail(&mut self, text: &str)
        ensures
            *final(self) == (Rollout {
                stage: Stage::Ended,
                failure: final(self).failure,
                ..*old(self)
            }),
            fails_with(final(self).failure, text@),
    {
        self.stage = Stage::Ended;
        self.failure = Some(
            BackendError::Netlink(IoFailure { errno: None, message: String::from_str(text) }),
        );
    }

    /// How the request ended.
    pub fn result(self) -> (r: Result<(), BackendError>)
        ensures
            crate::netlink::refusal(r) == self.failure,
    {
        match self.failure {
            None => Ok(()),
            Some(error) => Err(error),
        }
    }
}

/// The action of a stage that needs no transaction.
pub open spec fn first_action(rollout: Rollout) -> Action {
    if rollout.stage == Stage::Ended {
        Action::Finish
    } else {
        Action::Inspect
    }
}

fn finds(sets: &Vec<SetInfo>, table: &String, set: AddressSet) -> (r: bool)
    ensures
        r == crate::netlink::has_set(sets@, table@, set.text()),
{
    finds_set(sets, table, &set.name())
}

fn finds_both(
    sets: &Vec<SetInfo>,
    table: &String,
    direction: Direction,
    generation: u8,
) -> (r: bool)
    ensures
        r == complete(sets@, table@, direction, generation),
{
    finds(sets, table, AddressSet { direction, v6: false, generation }) && finds(
        sets,
        table,
        AddressSet { direction, v6: true, generation },
    )
}

/// The first generation of which there is no set, if any.
pub fn free_generation(sets: &Vec<SetInfo>, table: &String, direction: Direction) -> (r: Option<
    u8,
>)
    ensures
        is_free(sets@, table@, direction, r),
{
    let mut i: u16 = 0;
    while i < 256
        invariant
            i <= 256,
            forall|earlier: u8|
                earlier < i ==> !#[trigger] unused(sets@, table@, direction, earlier),
        decreases 256 - i,
    {
        let generation: u8 = i as u8;
        if !finds(sets, table, AddressSet { direction, v6: false, generation }) && !finds(
            sets,
            table,
            AddressSet { direction, v6: true, generation },
        ) {
            return Some(generation);
        }
        assert(!unused(sets@, table@, direction, generation));
        i = i + 1;
    }
    None
}

/// The generation of a direction that the rules use.
pub fn generation_in_force(
    known: Option<u8>,
    sets: &Vec<SetInfo>,
    table: &String,
    direction: Direction,
) -> (r: Option<u8>)
    ensures
        is_in_force(known, sets@, table@, direction, r),
{
    match known {
        Some(generation) => {
            if finds_both(sets, table, direction, generation) {
                return Some(generation);
            }
        },
        None => {},
    }
    let mut found: Option<u8> = None;
    let mut i: u16 = 0;
    while i < 256
        invariant
            i <= 256,
            !(known is Some && complete(sets@, table@, direction, known->0)),
            match found {
                Some(generation) => {
                    &&& generation < i
                    &&& complete(sets@, table@, direction, generation)
                    &&& forall|other: u8|
                        other < i && #[trigger] complete(sets@, table@, direction, other) ==> other
                            == generation
                },
                None => forall|other: u8|
                    other < i ==> !#[trigger] complete(sets@, table@, direction, other),
            },
        decreases 256 - i,
    {
        let generation: u8 = i as u8;
        if finds_both(sets, table, direction, generation) {
            match found {
                Some(earlier) => {
                    assert(earlier != generation);
                    return None;
                },
                None => {
                    found = Some(generation);
                },
            }
        }
        i = i + 1;
    }
    found
}

/// The sets of the direction's other generations that are there.
pub fn stale_sets(
    sets: &Vec<SetInfo>,
    table: &String,
    direction: Direction,
    generation: u8,
) -> (r: Vec<AddressSet>)
    ensures
        are_stale(sets@, table@, direction, generation, r@),
{
    let mut r: Vec<AddressSet> = Vec::new();
    let mut i: u16 = 0;
    while i < 256
        invariant
            i <= 256,
            r@.no_duplicates(),
            forall|set: AddressSet| #[trigger]
                r@.contains(set) <==> set.generation < i && set.direction == direction
                    && set.generation != generation && crate::netlink::has_set(
                    sets@,
                    table@,
                    set.text(),
                ),
        decreases 256 - i,
    {
        let ghost before = r@;
        let number: u8 = i as u8;
        let v4 = AddressSet { direction, v6: false, generation: number };
        let v6 = AddressSet { direction, v6: true, generation: number };
        assert(!before.contains(v4) && !before.contains(v6));
        if number != generation && finds(sets, table, v4) {
            r.push(v4);
            proof {
                lemma_contains_push(before, v4);
            }
        }
        let ghost between = r@;
        assert(!between.contains(v6));
        if number != generation && finds(sets, table, v6) {
            r.push(v6);
            proof {
                lemma_contains_push(between, v6);
            }
        }
        i = i + 1;
    }
    r
}

proof fn lemma_contains_push(sets: Seq<AddressSet>, set: AddressSet)
    ensures
        forall|other: AddressSet| #[trigger]
            sets.push(set).contains(other) <==> sets.contains(other) || other == set,
{
    let all = sets.push(set);
    assert forall|other: AddressSet| #[trigger] all.contains(other) <==> sets.contains(other)
        || other == set by {
        if sets.contains(other) {
            let k = choose|k: int| 0 <= k < sets.len() && sets[k] == other;
            assert(all[k] == other);
        }
        if other == set {
            assert(all[sets.len() as int] == other);
        }
    }
}

fn counts(sets: &Vec<SetInfo>, table: &String, name: &String, elements: usize) -> (r: bool)
    ensures
        r == has_elements(sets@, table@, name@, elements as nat),
{
    let mut k: usize = 0;
    while k < sets.len()
        invariant
            k <= sets@.len(),
            forall|j: int|
                0 <= j < k ==> !((#[trigger] sets@[j]).table@ == table@ && sets@[j].name@ == name@
                    && sets@[j].elements is Some && sets@[j].elements->0 == elements),
        decreases sets@.len() - k,
    {
        if sets[k].table == *table && sets[k].name == *name {
            match sets[k].elements {
                Some(n) => {
                    if n as u64 == elements as u64 {
                        return true;
                    }
                },
                None => {},
            }
        }
        k = k + 1;
    }
    false
}

/// Whether the sets of a generation are there and complete. The same check is made of every staged
/// generation before the rules look at it.
pub fn is_healthy(
    sets: &Vec<SetInfo>,
    table: &String,
    direction: Direction,
    generation: u8,
    list: &ParsedBlocklist,
) -> (r: bool)
    ensures
        r == healthy(sets@, table@, direction, generation, *list),
{
    let v4 = AddressSet { direction, v6: false, generation };
    let v6 = AddressSet { direction, v6: true, generation };
    counts(sets, table, &v4.name(), list.ipv4.len()) && counts(
        sets,
        table,
        &v6.name(),
        list.ipv6.len(),
    )
}

/// What comes after the part of the list that ends at a place.
fn next_stage(list: &ParsedBlocklist, v6: bool, from: usize, limit: u32) -> (r: Stage)
    requires
        from <= crate::batch::family_of(*list, v6).len(),
    ensures
        is_next(r, *list, v6, from as int, limit as nat),
        r matches Stage::Populating { v6: family, from: start, to } ==> start <= to
            <= crate::batch::family_of(*list, family).len(),
{
    if !v6 {
        if from < list.ipv4.len() {
            let to: usize = cut(&list.ipv4, from, limit);
            return Stage::Populating { v6: false, from, to };
        }
        if list.ipv6.len() > 0 {
            let to: usize = cut(&list.ipv6, 0, limit);
            return Stage::Populating { v6: true, from: 0, to };
        }
        return Stage::Checking;
    }
    if from < list.ipv6.len() {
        let to: usize = cut(&list.ipv6, from, limit);
        return Stage::Populating { v6: true, from, to };
    }
    Stage::Checking
}

/// The table is set up, and every list in use is replaced with it.
pub open spec fn rebuilds(before: Rollout, after: Rollout, config: Config) -> bool {
    after == Rollout {
        stage: Stage::SettingUp,
        set_up: true,
        inbound: before.inbound || config.rules.uses(Direction::Inbound),
        outbound: before.outbound || config.rules.uses(Direction::Outbound),
        ..before
    }
}

/// The request is over, and failed.
pub open spec fn gives_up(before: Rollout, after: Rollout) -> bool {
    after == Rollout { stage: Stage::Ended, failure: after.failure, ..before }
}

/// The request fails, and the new sets are deleted first.
pub open spec fn discards(before: Rollout, after: Rollout) -> bool {
    after == Rollout { stage: Stage::Discarding, failure: after.failure, ..before }
}

/// The table is gone, and this request has not set it up yet.
pub open spec fn table_missing(before: Rollout, cause: IoFailure) -> bool {
    cause.errno == Some(ENOENT) && !before.set_up
}

/// What follows where the table is not there.
pub open spec fn builds(before: Rollout, after: Rollout, config: Config) -> bool {
    if before.supported {
        rebuilds(before, after, config)
    } else {
        gives_up(before, after) && fails_with(
            after.failure,
            "kernel does not support nftables batches"@,
        )
    }
}

/// The next list is replaced, if there is one.
pub open spec fn starts(
    before: Rollout,
    after: Rollout,
    table: Seq<char>,
    sets: Seq<SetInfo>,
) -> bool {
    match before.due() {
        None => after == Rollout { stage: Stage::Ended, ..before },
        Some(direction) => {
            &&& after.stage == Stage::Creating ==> is_free(
                sets,
                table,
                direction,
                Some(after.generation),
            ) && after == Rollout {
                stage: Stage::Creating,
                direction,
                generation: after.generation,
                ..before
            }
            &&& after.stage != Stage::Creating ==> {
                &&& is_free(sets, table, direction, None)
                &&& gives_up(before, after)
                &&& fails_with(after.failure, "no generation of address sets is free"@)
            }
        },
    }
}

/// What the kernel has decides how to go on. A table that is not laid out as it should be is left
/// alone.
pub open spec fn inspected(
    before: Rollout,
    after: Rollout,
    config: Config,
    tables: Seq<String>,
    sets: Seq<SetInfo>,
) -> bool {
    let table = config.nftables.table@;
    if !crate::text::has_text(tables, table) {
        if before.set_up {
            gives_up(before, after) && fails_with(after.failure, "table is missing after setup"@)
        } else {
            builds(before, after, config)
        }
    } else if !crate::netlink::recognized(sets, table) {
        gives_up(before, after) && fails_with(after.failure, unmarked_text(table))
    } else {
        &&& is_in_force(before.active.inbound, sets, table, Direction::Inbound, after.active.inbound)
        &&& is_in_force(
            before.active.outbound,
            sets,
            table,
            Direction::Outbound,
            after.active.outbound,
        )
        &&& starts(Rollout { active: after.active, ..before }, after, table, sets)
    }
}

/// What the kernel has decides whether the new sets are put into force.
pub open spec fn checked(
    before: Rollout,
    after: Rollout,
    config: Config,
    snapshot: Snapshot,
    sets: Seq<SetInfo>,
) -> bool {
    let table = config.nftables.table@;
    if healthy(
        sets,
        table,
        before.direction,
        before.generation,
        snapshot.list(before.direction),
    ) {
        &&& after == Rollout { stage: Stage::Activating, stale: after.stale, ..before }
        &&& are_stale(sets, table, before.direction, before.generation, after.stale@)
    } else {
        discards(before, after) && fails_with(after.failure, incomplete_text(before.direction))
    }
}

/// What follows a transaction for the new sets that the kernel refused.
pub open spec fn staging_refused(
    before: Rollout,
    after: Rollout,
    config: Config,
    cause: IoFailure,
) -> bool {
    if table_missing(before, cause) {
        builds(before, after, config)
    } else {
        discards(before, after) && after.failure == Some(BackendError::Netlink(cause))
    }
}

/// The list is in force: on to the next one, if there is one.
pub open spec fn moves_on(before: Rollout, after: Rollout) -> bool {
    let done = Rollout {
        inbound: before.inbound && before.direction != Direction::Inbound,
        outbound: before.outbound && before.direction != Direction::Outbound,
        ..before
    };
    after == Rollout {
        stage: if done.due() is Some {
            Stage::Inspecting
        } else {
            Stage::Ended
        },
        ..done
    }
}

/// What a step does.
pub open spec fn stepped(
    before: Rollout,
    event: Event,
    after: Rollout,
    config: Config,
    snapshot: Snapshot,
) -> bool {
    let list = snapshot.list(before.direction);
    let limit = config.nftables.populate_batch_elements as nat;
    match (before.stage, event) {
        (Stage::Inspecting, Event::Inspected { tables, sets }) => inspected(
            before,
            after,
            config,
            tables@,
            sets@,
        ),
        (Stage::Inspecting, Event::Refused(cause)) => gives_up(before, after) && after.failure
            == Some(BackendError::Netlink(cause)),
        (Stage::SettingUp, Event::Accepted) => after == Rollout {
            stage: Stage::Inspecting,
            ..before
        },
        (Stage::SettingUp, Event::Refused(cause)) => gives_up(before, after) && after.failure
            == Some(BackendError::Netlink(cause)),
        (Stage::Creating, Event::Accepted) => after == Rollout { stage: after.stage, ..before }
            && is_next(after.stage, list, false, 0, limit),
        (Stage::Creating, Event::Refused(cause)) => if table_missing(before, cause) {
            builds(before, after, config)
        } else {
            gives_up(before, after) && after.failure == Some(BackendError::Netlink(cause))
        },
        (Stage::Populating { v6, to, .. }, Event::Accepted) => after == Rollout {
            stage: after.stage,
            ..before
        } && is_next(after.stage, list, v6, to as int, limit),
        (Stage::Populating { .. }, Event::Refused(cause)) => staging_refused(
            before,
            after,
            config,
            cause,
        ),
        (Stage::Checking, Event::Inspected { sets, .. }) => checked(
            before,
            after,
            config,
            snapshot,
            sets@,
        ),
        (Stage::Checking, Event::Refused(cause)) => discards(before, after) && after.failure
            == Some(BackendError::Netlink(cause)),
        (Stage::Activating, Event::Accepted) => {
            let active = before.active.replaced(before.direction, before.generation);
            let activated = Rollout { active, ..before };
            if before.stale@.len() > 0 {
                after == Rollout { stage: Stage::CleaningUp, ..activated }
            } else {
                moves_on(activated, after)
            }
        },
        (Stage::Activating, Event::Refused(cause)) => staging_refused(
            before,
            after,
            config,
            cause,
        ),
        (Stage::CleaningUp, _) => moves_on(before, after),
        (Stage::Discarding, _) => after == Rollout { stage: Stage::Ended, ..before },
        _ => true,
    }
}

/// The steps of the transaction that is under way in a stage.
pub open spec fn pending(
    rollout: Rollout,
    config: Config,
    rules: Seq<RenderedRule>,
    snapshot: Snapshot,
) -> Seq<Step> {
    match rollout.stage {
        Stage::SettingUp => crate::batch::setup_steps(config.nftables.priority),
        Stage::Creating => crate::batch::creation_steps(rollout.direction, rollout.generation),
        Stage::Populating { v6, from, to } => crate::batch::population_steps(
            rollout.set(v6),
            crate::batch::family_of(snapshot.list(rollout.direction), v6).subrange(
                from as int,
                to as int,
            ),
        ),
        Stage::Activating => crate::batch::activation_steps(
            rules,
            rollout.active.replaced(rollout.direction, rollout.generation),
        ),
        Stage::CleaningUp => crate::batch::deletion_steps(rollout.stale@),
        Stage::Discarding => crate::batch::deletion_steps(
            seq![rollout.set(false), rollout.set(true)],
        ),
        _ => Seq::empty(),
    }
}

/// The action is that of the rollout's stage.
pub open spec fn acts(
    rollout: Rollout,
    action: Action,
    config: Config,
    rules: Seq<RenderedRule>,
    snapshot: Snapshot,
) -> bool {
    match rollout.stage {
        Stage::Inspecting | Stage::Checking => action == Action::Inspect,
        Stage::Ended => action == Action::Finish,
        _ => action matches Action::Send(transaction) && transaction.performs(
            config,
            pending(rollout, config, rules, snapshot),
        ),
    }
}

impl Rollout {
    /// Takes in what came of the last action, and says what to do next. The lists are those that
    /// are to be in force.
    pub fn step(
        &mut self,
        config: &Config,
        rules: &Vec<RenderedRule>,
        snapshot: &Snapshot,
        event: Event,
    ) -> (r: Action)
        requires
            old(self).wf(*snapshot),
            follows(old(self).stage, event),
        ensures
            final(self).wf(*snapshot),
            stepped(*old(self), event, *final(self), *config, *snapshot),
            acts(*final(self), r, *config, rules@, *snapshot),
    {
        self.advance(config, snapshot, event);
        self.action(config, rules, snapshot)
    }

    /// The action of the stage.
    fn action(&self, config: &Config, rules: &Vec<RenderedRule>, snapshot: &Snapshot) -> (r: Action)
        requires
            self.wf(*snapshot),
        ensures
            acts(*self, r, *config, rules@, *snapshot),
    {
        let (direction, generation) = (self.direction, self.generation);
        let list = match direction {
            Direction::Inbound => &snapshot.inbound,
            Direction::Outbound => &snapshot.outbound,
        };
        match self.stage {
            Stage::Inspecting | Stage::Checking => Action::Inspect,
            Stage::Ended => Action::Finish,
            Stage::SettingUp => Action::Send(setup_transaction(config)),
            Stage::Creating => Action::Send(creation_transaction(config, direction, generation)),
            Stage::Populating { v6, from, to } => {
                let intervals = if v6 {
                    &list.ipv6
                } else {
                    &list.ipv4
                };
                Action::Send(
                    population_transaction(
                        config,
                        AddressSet { direction, v6, generation },
                        intervals,
                        from,
                        to,
                    ),
                )
            },
            Stage::Activating => Action::Send(
                activation_transaction(config, rules, self.active.with(direction, generation)),
            ),
            Stage::CleaningUp => Action::Send(deletion_transaction(config, &self.stale)),
            Stage::Discarding => {
                let mut sets: Vec<AddressSet> = Vec::new();
                sets.push(AddressSet { direction, v6: false, generation });
                sets.push(AddressSet { direction, v6: true, generation });
                assert(sets@ =~= seq![self.set(false), self.set(true)]);
                Action::Send(deletion_transaction(config, &sets))
            },
        }
    }

    fn advance(&mut self, config: &Config, snapshot: &Snapshot, event: Event)
        requires
            old(self).wf(*snapshot),
            follows(old(self).stage, event),
        ensures
            final(self).wf(*snapshot),
            stepped(*old(self), event, *final(self), *config, *snapshot),
    {
        let list = match self.direction {
            Direction::Inbound => &snapshot.inbound,
            Direction::Outbound => &snapshot.outbound,
        };
        let limit: u32 = config.nftables.populate_batch_elements;
        match self.stage {
            Stage::Inspecting => match event {
                Event::Inspected { tables, sets } => self.inspect(config, &tables, &sets),
                Event::Refused(cause) => self.end(cause),
                Event::Accepted => {},
            },
            Stage::SettingUp => match event {
                Event::Refused(cause) => self.end(cause),
                _ => {
                    self.stage = Stage::Inspecting;
                },
            },
            Stage::Creating => match event {
                Event::Refused(cause) => {
                    if self.misses_table(&cause) {
                        self.build(config);
                    } else {
                        self.end(cause);
                    }
                },
                _ => {
                    self.stage = next_stage(list, false, 0, limit);
                },
            },
            Stage::Populating { v6, from: _, to } => match event {
                Event::Refused(cause) => self.refuse(config, cause),
                _ => {
                    self.stage = next_stage(list, v6, to, limit);
                },
            },
            Stage::Checking => match event {
                Event::Inspected { tables: _, sets } => self.check(config, snapshot, &sets),
                Event::Refused(cause) => {
                    self.failure = Some(BackendError::Netlink(cause));
                    self.stage = Stage::Discarding;
                },
                Event::Accepted => {},
            },
            Stage::Activating => match event {
                Event::Refused(cause) => self.refuse(config, cause),
                _ => {
                    self.active = self.active.with(self.direction, self.generation);
                    if self.stale.len() > 0 {
                        self.stage = Stage::CleaningUp;
                    } else {
                        self.move_on();
                    }
                },
            },
            Stage::CleaningUp => self.move_on(),
            Stage::Discarding => {
                self.stage = Stage::Ended;
            },
            Stage::Ended => {},
        }
    }

    fn end(&mut self, cause: IoFailure)
        ensures
            gives_up(*old(self), *final(self)),
            final(self).failure == Some(BackendError::Netlink(cause)),
    {
        self.stage = Stage::Ended;
        self.failure = Some(BackendError::Netlink(cause));
    }

    fn misses_table(&self, cause: &IoFailure) -> (r: bool)
        ensures
            r == table_missing(*self, *cause),
    {
        !self.set_up && match cause.errno {
            Some(errno) => errno == ENOENT,
            None => false,
        }
    }

    fn build(&mut self, config: &Config)
        ensures
            builds(*old(self), *final(self), *config),
    {
        if self.supported {
            self.stage = Stage::SettingUp;
            self.set_up = true;
            self.inbound = self.inbound || config.uses(Direction::Inbound);
            self.outbound = self.outbound || config.uses(Direction::Outbound);
        } else {
            self.fail("kernel does not support nftables batches");
        }
    }

    fn refuse(&mut self, config: &Config, cause: IoFailure)
        ensures
            staging_refused(*old(self), *final(self), *config, cause),
    {
        if self.misses_table(&cause) {
            self.build(config);
        } else {
            self.failure = Some(BackendError::Netlink(cause));
            self.stage = Stage::Discarding;
        }
    }

    fn move_on(&mut self)
        ensures
            moves_on(*old(self), *final(self)),
    {
        match self.direction {
            Direction::Inbound => {
                self.inbound = false;
            },
            Direction::Outbound => {
                self.outbound = false;
            },
        }
        if self.inbound || self.outbound {
            self.stage = Stage::Inspecting;
        } else {
            self.stage = Stage::Ended;
        }
    }

    fn inspect(&mut self, config: &Config, tables: &Vec<String>, sets: &Vec<SetInfo>)
        ensures
            inspected(*old(self), *final(self), *config, tables@, sets@),
            !(final(self).stage is Populating),
    {
        let table = &config.nftables.table;
        if !contains_text(tables, table) {
            if self.set_up {
                self.fail("table is missing after setup");
            } else {
                self.build(config);
            }
            return;
        }
        if !recognizes_layout(sets, table) {
            let text = String::from_str("table inet ").concat(table.as_str()).concat(
                " exists without the cidrwall layout marker",
            );
            self.fail(text.as_str());
            return;
        }
        self.active = Active {
            inbound: generation_in_force(self.active.inbound, sets, table, Direction::Inbound),
            outbound: generation_in_force(self.active.outbound, sets, table, Direction::Outbound),
        };
        let direction = if self.inbound {
            Direction::Inbound
        } else if self.outbound {
            Direction::Outbound
        } else {
            self.stage = Stage::Ended;
            return;
        };
        match free_generation(sets, table, direction) {
            Some(generation) => {
                self.direction = direction;
                self.generation = generation;
                self.stage = Stage::Creating;
            },
            None => self.fail("no generation of address sets is free"),
        }
    }

    fn check(&mut self, config: &Config, snapshot: &Snapshot, sets: &Vec<SetInfo>)
        ensures
            checked(*old(self), *final(self), *config, *snapshot, sets@),
            !(final(self).stage is Populating),
    {
        let list = match self.direction {
            Direction::Inbound => &snapshot.inbound,
            Direction::Outbound => &snapshot.outbound,
        };
        let table = &config.nftables.table;
        if is_healthy(sets, table, self.direction, self.generation, list) {
            self.stale = stale_sets(sets, table, self.direction, self.generation);
            self.stage = Stage::Activating;
        } else {
            let text = String::from_str("staged ").concat(self.direction.as_str()).concat(
                " sets are missing or have the wrong number of elements",
            );
            self.fail(text.as_str());
            self.stage = Stage::Discarding;
        }
    }
}

impl Rollout {
    /// The list is still to be replaced.
    pub open spec fn pends(self, direction: Direction) -> bool {
        match direction {
            Direction::Inbound => self.inbound,
            Direction::Outbound => self.outbound,
        }
    }

    /// What the stage says is so: a failure is noted exactly where the request fails, the list that
    /// is being replaced is the next one due, and a request that ends without a failure has nothing
    /// left to replace.
    pub open spec fn consistent(self) -> bool {
        match self.stage {
            Stage::Inspecting | Stage::SettingUp => self.failure is None,
            Stage::Discarding => self.failure is Some,
            Stage::Ended => self.failure is None ==> self.due() is None,
            Stage::CleaningUp => {
                &&& self.failure is None
                &&& self.due() == Some(self.direction)
                &&& self.active.generation(self.direction) == Some(self.generation)
            },
            _ => self.failure is None && self.due() == Some(self.direction),
        }
    }
}

/// A request begins consistent, and stays so: where it ends without a failure, every list that was
/// to be replaced has been. A list is crossed off only once its new generation is in force.
pub proof fn law_success_means_every_list_is_in_force(
    before: Rollout,
    event: Event,
    after: Rollout,
    config: Config,
    snapshot: Snapshot,
    direction: Direction,
)
    requires
        before.consistent(),
        follows(before.stage, event),
        stepped(before, event, after, config, snapshot),
    ensures
        after.consistent(),
        before.pends(direction) && !after.pends(direction) ==> direction == before.direction
            && after.active.generation(direction) == Some(before.generation),
{
}

/// A request that has just begun is consistent.
pub proof fn law_a_request_begins_consistent(
    rollout: Rollout,
    config: Config,
    direction: Option<Direction>,
    supported: bool,
    active: Active,
)
    requires
        rollout.begun(config, direction, supported, active),
    ensures
        rollout.consistent(),
{
}

/// The kernel lists a set of this name in the table.
pub open spec fn lists_set(sets: Seq<SetInfo>, table: Seq<char>, name: Seq<char>) -> bool {
    exists|info: SetInfo| #[trigger]
        sets.contains(info) && info.table@ == table && info.name@ == name
}

pub proof fn lemma_lists_set(sets: Seq<SetInfo>, table: Seq<char>, name: Seq<char>)
    ensures
        lists_set(sets, table, name) <==> crate::netlink::has_set(sets, table, name),
{
    if lists_set(sets, table, name) {
        let info = choose|info: SetInfo| #[trigger]
            sets.contains(info) && info.table@ == table && info.name@ == name;
        let k = choose|k: int| 0 <= k < sets.len() && #[trigger] sets[k] == info;
        assert(sets[k].table@ == table);
    }
    if crate::netlink::has_set(sets, table, name) {
        let k = choose|k: int|
            0 <= k < sets.len() && (#[trigger] sets[k]).table@ == table && sets[k].name@ == name;
        assert(sets.contains(sets[k]));
    }
}

/// Some set of the generation is listed.
pub open spec fn is_taken(
    sets: Seq<SetInfo>,
    table: Seq<char>,
    direction: Direction,
    generation: u8,
) -> bool {
    lists_set(sets, table, (AddressSet { direction, v6: false, generation }).text()) || lists_set(
        sets,
        table,
        (AddressSet { direction, v6: true, generation }).text(),
    )
}

/// A new list goes into the first generation of which no set is listed, of either family. There is
/// none only where every generation has a set.
pub proof fn law_new_generations_are_unused(
    sets: Seq<SetInfo>,
    table: Seq<char>,
    direction: Direction,
    free: Option<u8>,
    generation: u8,
)
    requires
        is_free(sets, table, direction, free),
    ensures
        free == Some(generation) ==> !is_taken(sets, table, direction, generation),
        free is Some && generation < free->0 ==> is_taken(sets, table, direction, generation),
        free is None ==> is_taken(sets, table, direction, generation),
{
    lemma_lists_set(sets, table, (AddressSet { direction, v6: false, generation }).text());
    lemma_lists_set(sets, table, (AddressSet { direction, v6: true, generation }).text());
    assert(unused(sets, table, direction, generation) == !is_taken(
        sets,
        table,
        direction,
        generation,
    ));
}

/// Both sets of the generation are listed.
pub open spec fn is_whole(
    sets: Seq<SetInfo>,
    table: Seq<char>,
    direction: Direction,
    generation: u8,
) -> bool {
    lists_set(sets, table, (AddressSet { direction, v6: false, generation }).text()) && lists_set(
        sets,
        table,
        (AddressSet { direction, v6: true, generation }).text(),
    )
}

/// A generation that is known to be in force and is listed whole stays in force. Otherwise the one
/// generation that is listed whole is, where there is just one.
pub proof fn law_the_generation_in_force_is_found(
    known: Option<u8>,
    sets: Seq<SetInfo>,
    table: Seq<char>,
    direction: Direction,
    r: Option<u8>,
    a: u8,
    b: u8,
)
    requires
        is_in_force(known, sets, table, direction, r),
    ensures
        known == Some(a) && is_whole(sets, table, direction, a) ==> r == Some(a),
        r is Some ==> is_whole(sets, table, direction, r->0),
        r is None && is_whole(sets, table, direction, a) ==> exists|other: u8|
            other != a && #[trigger] is_whole(sets, table, direction, other),
        !(known is Some && is_whole(sets, table, direction, known->0)) && a != b && is_whole(
            sets,
            table,
            direction,
            a,
        ) && is_whole(sets, table, direction, b) ==> r is None,
{
    assert forall|generation: u8|
        #![trigger is_whole(sets, table, direction, generation)]
        #![trigger complete(sets, table, direction, generation)]
        complete(sets, table, direction, generation) == is_whole(
            sets,
            table,
            direction,
            generation,
        ) by {
        lemma_lists_set(sets, table, (AddressSet { direction, v6: false, generation }).text());
        lemma_lists_set(sets, table, (AddressSet { direction, v6: true, generation }).text());
    }
    if r is None && is_whole(sets, table, direction, a) {
        assert(complete(sets, table, direction, a));
        let other = choose|other: u8|
            other != a && #[trigger] complete(sets, table, direction, other);
        assert(is_whole(sets, table, direction, other));
    }
    assert(is_whole(sets, table, direction, a) == complete(sets, table, direction, a));
    assert(is_whole(sets, table, direction, b) == complete(sets, table, direction, b));
    if r is Some {
        assert(complete(sets, table, direction, r->0));
    }
}

/// The kernel lists the set with this number of elements.
pub open spec fn lists_elements(
    sets: Seq<SetInfo>,
    table: Seq<char>,
    name: Seq<char>,
    elements: nat,
) -> bool {
    exists|info: SetInfo| #[trigger]
        sets.contains(info) && info.table@ == table && info.name@ == name && info.elements is Some
            && info.elements->0 == elements
}

proof fn lemma_lists_elements(
    sets: Seq<SetInfo>,
    table: Seq<char>,
    name: Seq<char>,
    elements: nat,
)
    ensures
        lists_elements(sets, table, name, elements) <==> has_elements(sets, table, name, elements),
{
    if lists_elements(sets, table, name, elements) {
        let info = choose|info: SetInfo| #[trigger]
            sets.contains(info) && info.table@ == table && info.name@ == name && info.elements
                is Some && info.elements->0 == elements;
        let k = choose|k: int| 0 <= k < sets.len() && #[trigger] sets[k] == info;
        assert(sets[k].table@ == table);
    }
    if has_elements(sets, table, name, elements) {
        let k = choose|k: int|
            0 <= k < sets.len() && (#[trigger] sets[k]).table@ == table && sets[k].name@ == name
                && sets[k].elements is Some && sets[k].elements->0 == elements;
        assert(sets.contains(sets[k]));
    }
}

/// Staged sets are accepted exactly where the kernel lists both, that of IPv4 with as many elements
/// as the list has IPv4 intervals, and that of IPv6 with as many as it has IPv6 intervals.
pub proof fn law_both_families_are_checked(
    sets: Seq<SetInfo>,
    table: Seq<char>,
    direction: Direction,
    generation: u8,
    list: ParsedBlocklist,
)
    ensures
        healthy(sets, table, direction, generation, list) <==> lists_elements(
            sets,
            table,
            (AddressSet { direction, v6: false, generation }).text(),
            list.ipv4@.len(),
        ) && lists_elements(
            sets,
            table,
            (AddressSet { direction, v6: true, generation }).text(),
            list.ipv6@.len(),
        ),
{
    lemma_lists_elements(
        sets,
        table,
        (AddressSet { direction, v6: false, generation }).text(),
        list.ipv4@.len(),
    );
    lemma_lists_elements(
        sets,
        table,
        (AddressSet { direction, v6: true, generation }).text(),
        list.ipv6@.len(),
    );
}

/// What goes once a generation is in force is every listed set of the direction's other generations:
/// none of the new generation, none of the other direction, and none is forgotten.
pub proof fn law_every_earlier_set_goes(
    sets: Seq<SetInfo>,
    table: Seq<char>,
    direction: Direction,
    generation: u8,
    stale: Seq<AddressSet>,
    set: AddressSet,
)
    requires
        are_stale(sets, table, direction, generation, stale),
    ensures
        stale.contains(set) <==> set.direction == direction && set.generation != generation
            && lists_set(sets, table, set.text()),
        stale.no_duplicates(),
{
    lemma_lists_set(sets, table, set.text());
}

/// A request fails only for a reason: the kernel refused something, the table cannot be set up or
/// was not there after it was, it lacks the layout marker, no generation is free, or the staged sets
/// are not what they should be.
pub proof fn law_requests_fail_for_a_reason(
    before: Rollout,
    event: Event,
    after: Rollout,
    config: Config,
    snapshot: Snapshot,
)
    requires
        before.consistent(),
        before.failure is None,
        follows(before.stage, event),
        stepped(before, event, after, config, snapshot),
        after.failure is Some,
    ensures
        match event {
            Event::Refused(cause) => {
                ||| after.failure == Some(BackendError::Netlink(cause))
                ||| cause.errno == Some(2i32) && !before.supported
            },
            Event::Accepted => false,
            Event::Inspected { tables, sets } => {
                let table = config.nftables.table@;
                let list = snapshot.list(before.direction);
                if before.stage == Stage::Checking {
                    !lists_elements(sets@, table, before.set(false).text(), list.ipv4@.len())
                        || !lists_elements(sets@, table, before.set(true).text(), list.ipv6@.len())
                } else if !crate::text::has_text(tables@, table) {
                    before.set_up || !before.supported
                } else {
                    ||| !lists_set(sets@, table, "cidrwall_layout_1"@)
                    ||| before.due() matches Some(direction) && forall|generation: u8| #[trigger]
                        is_taken(sets@, table, direction, generation)
                }
            },
        },
{
    match event {
        Event::Inspected { tables, sets } => {
            let table = config.nftables.table@;
            law_both_families_are_checked(
                sets@,
                table,
                before.direction,
                before.generation,
                snapshot.list(before.direction),
            );
            lemma_lists_set(sets@, table, "cidrwall_layout_1"@);
            if before.stage == Stage::Inspecting && crate::text::has_text(tables@, table)
                && crate::netlink::recognized(sets@, table) {
                match before.due() {
                    Some(direction) => {
                        assert(is_free(sets@, table, direction, None));
                        assert forall|generation: u8| #[trigger]
                            is_taken(sets@, table, direction, generation) by {
                            law_new_generations_are_unused(
                                sets@,
                                table,
                                direction,
                                None,
                                generation,
                            );
                        }
                    },
                    None => {},
                }
            }
        },
        _ => {},
    }
}

/// How many lists are still to be replaced.
pub open spec fn lists_left(rollout: Rollout) -> nat {
    (if rollout.inbound {
        1nat
    } else {
        0nat
    }) + (if rollout.outbound {
        1nat
    } else {
        0nat
    })
}

/// How far a stage is from the end of the list that is being replaced, given the number of
/// intervals of both lists together.
pub open spec fn stages_left(rollout: Rollout, snapshot: Snapshot) -> nat {
    let list = snapshot.list(rollout.direction);
    let all = snapshot.inbound.ipv4@.len() + snapshot.inbound.ipv6@.len()
        + snapshot.outbound.ipv4@.len() + snapshot.outbound.ipv6@.len();
    match rollout.stage {
        Stage::Ended => 0,
        Stage::Discarding => 1,
        Stage::CleaningUp => 1,
        Stage::Activating => 2,
        Stage::Checking => 3,
        Stage::Populating { v6, from, .. } => if v6 {
            (4 + list.ipv6@.len() - from) as nat
        } else {
            (4 + list.ipv4@.len() - from + list.ipv6@.len()) as nat
        },
        Stage::Creating => 6 + all,
        Stage::Inspecting => 7 + all,
        Stage::SettingUp => 8 + all,
    }
}

/// Every request comes to an end: each event brings it nearer. The table is set up at most once;
/// apart from that, no list is taken up again, and no stage of a list is.
pub proof fn law_every_request_ends(
    before: Rollout,
    event: Event,
    after: Rollout,
    config: Config,
    snapshot: Snapshot,
)
    requires
        before.consistent(),
        before.wf(snapshot),
        before.stage matches Stage::Populating { from, to, .. } ==> from < to,
        follows(before.stage, event),
        stepped(before, event, after, config, snapshot),
    ensures
        after.stage matches Stage::Populating { from, to, .. } ==> from < to,
        before.set_up ==> after.set_up,
        !before.set_up && after.set_up || before.set_up == after.set_up && (lists_left(after)
            < lists_left(before) || lists_left(after) == lists_left(before) && stages_left(
            after,
            snapshot,
        ) < stages_left(before, snapshot)),
{
    let list = snapshot.list(before.direction);
    assert(crate::batch::family_of(list, true) == list.ipv6@);
    assert(crate::batch::family_of(list, false) == list.ipv4@);
}

/// A table that turns out to be missing is set up, once, wherever the request stands, if the kernel
/// takes batches at all; and then every named list is replaced. Any other refusal while a list is
/// being replaced ends the request, after the new sets were deleted where they had been created.
pub proof fn law_a_missing_table_is_set_up_once(
    before: Rollout,
    cause: IoFailure,
    after: Rollout,
    config: Config,
    snapshot: Snapshot,
    direction: Direction,
)
    requires
        before.stage is Creating || before.stage is Populating || before.stage is Activating,
        stepped(before, Event::Refused(cause), after, config, snapshot),
    ensures
        after.stage is SettingUp <==> cause.errno == Some(2i32) && !before.set_up
            && before.supported,
        after.stage is SettingUp ==> after.set_up && after.failure == before.failure && (
        crate::config::on_some_chain(config.rules, direction) ==> after.pends(direction)),
        !(after.stage is SettingUp) ==> after.failure is Some && after.active == before.active,
        cause.errno != Some(2i32) || before.set_up ==> if before.stage is Creating {
            after.stage is Ended
        } else {
            after.stage is Discarding && after.direction == before.direction && after.generation
                == before.generation
        },
{
    crate::config::law_any_chain_makes_a_list_used(config.rules, direction);
}

/// Where the kernel lists the table with its layout marker and a generation is free, the next list
/// that is due is taken up, inbound before outbound; where none is due, the request has succeeded.
pub proof fn law_the_next_list_is_taken_up(
    before: Rollout,
    tables: Vec<String>,
    sets: Vec<SetInfo>,
    after: Rollout,
    config: Config,
    snapshot: Snapshot,
    generation: u8,
)
    requires
        before.stage == Stage::Inspecting,
        before.failure is None,
        stepped(before, Event::Inspected { tables, sets }, after, config, snapshot),
        crate::text::has_text(tables@, config.nftables.table@),
        lists_set(sets@, config.nftables.table@, "cidrwall_layout_1"@),
        !is_taken(sets@, config.nftables.table@, Direction::Inbound, generation),
        !is_taken(sets@, config.nftables.table@, Direction::Outbound, generation),
    ensures
        after.failure is None,
        before.inbound ==> after.stage == Stage::Creating && after.direction == Direction::Inbound,
        !before.inbound && before.outbound ==> after.stage == Stage::Creating && after.direction
            == Direction::Outbound,
        !before.inbound && !before.outbound ==> after.stage == Stage::Ended,
        after.stage == Stage::Creating ==> !is_taken(
            sets@,
            config.nftables.table@,
            after.direction,
            after.generation,
        ),
        after.inbound == before.inbound,
        after.outbound == before.outbound,
{
    let table = config.nftables.table@;
    lemma_lists_set(sets@, table, "cidrwall_layout_1"@);
    match before.due() {
        Some(direction) => {
            if after.stage != Stage::Creating {
                law_new_generations_are_unused(sets@, table, direction, None, generation);
            } else {
                law_new_generations_are_unused(
                    sets@,
                    table,
                    direction,
                    Some(after.generation),
                    after.generation,
                );
            }
        },
        None => {},
    }
}

/// A request begins by looking at what the kernel has. Only one for the whole table on a kernel that
/// takes no batches, or one for a table whose name the kernel cannot have, ends at once, and then
/// with a failure.
pub proof fn law_requests_begin_with_a_look(
    rollout: Rollout,
    config: Config,
    request: Option<Direction>,
    supported: bool,
    active: Active,
)
    requires
        rollout.begun(config, request, supported, active),
    ensures
        rollout.stage == Stage::Ended <==> request is None && !supported
            || config.nftables.table@.contains('\0'),
        rollout.stage == Stage::Ended ==> rollout.failure is Some && first_action(rollout)
            is Finish,
        rollout.stage != Stage::Ended ==> rollout.stage == Stage::Inspecting && rollout.failure
            is None && first_action(rollout) is Inspect,
        rollout.active == active,
        rollout.supported == supported,
        !rollout.set_up,
{
    crate::batch::law_only_nul_makes_a_table_bad(config);
}

/// Once a list is in force, a refusal to delete the sets of earlier generations does not make the
/// request fail: it goes on as if they were gone.
pub proof fn law_left_over_sets_do_no_harm(
    before: Rollout,
    cause: IoFailure,
    refused: Rollout,
    accepted: Rollout,
    config: Config,
    snapshot: Snapshot,
)
    requires
        before.stage == Stage::CleaningUp,
        stepped(before, Event::Refused(cause), refused, config, snapshot),
        stepped(before, Event::Accepted, accepted, config, snapshot),
    ensures
        refused == accepted,
        refused.failure == before.failure,
        refused.active == before.active,
{
}

/// The list in force changes with the activation alone: every other event leaves what is known of
/// the generations as it was, but for a look at what the kernel has.
pub proof fn law_only_activation_changes_the_generations(
    before: Rollout,
    event: Event,
    after: Rollout,
    config: Config,
    snapshot: Snapshot,
    direction: Direction,
)
    requires
        follows(before.stage, event),
        stepped(before, event, after, config, snapshot),
    ensures
        before.stage is Activating && event is Accepted ==> after.active.generation(direction) == (
        if direction == before.direction {
            Some(before.generation)
        } else {
            before.active.generation(direction)
        }),
        !(before.stage is Activating && event is Accepted) && !(before.stage is Inspecting)
            ==> after.active == before.active,
{
}

/// After a list was put into force, only that list is crossed off, and the request goes on with the
/// other one exactly where that one is due.
pub proof fn law_the_other_list_follows(
    before: Rollout,
    event: Event,
    after: Rollout,
    config: Config,
    snapshot: Snapshot,
)
    requires
        before.stage == Stage::CleaningUp || before.stage == Stage::Activating && event is Accepted
            && before.stale@.len() == 0,
        before.failure is None,
        follows(before.stage, event),
        stepped(before, event, after, config, snapshot),
    ensures
        !after.pends(before.direction),
        before.direction == Direction::Inbound ==> after.outbound == before.outbound,
        before.direction == Direction::Outbound ==> after.inbound == before.inbound,
        after.stage == Stage::Inspecting <==> after.inbound || after.outbound,
        after.stage == Stage::Ended <==> !after.inbound && !after.outbound,
        after.failure is None,
{
}

/// What a stage does is what is sent for it, whole and to the configured table: a stage that waits
/// for a transaction sends one with exactly its steps, and the others send nothing.
pub proof fn law_stages_send_their_steps(
    rollout: Rollout,
    action: Action,
    config: Config,
    rules: Seq<RenderedRule>,
    snapshot: Snapshot,
    k: int,
)
    requires
        acts(rollout, action, config, rules, snapshot),
    ensures
        rollout.stage is Inspecting || rollout.stage is Checking <==> action is Inspect,
        rollout.stage is Ended <==> action is Finish,
        action matches Action::Send(transaction) ==> {
            let steps = pending(rollout, config, rules, snapshot);
            &&& transaction.table@ == config.nftables.table@
            &&& transaction.messages@.len() == steps.len()
            &&& 0 <= k < steps.len() ==> transaction.messages@[k].step() == steps[k]
        },
{
    match action {
        Action::Send(transaction) => crate::batch::law_transactions_are_the_steps(
            transaction,
            config,
            pending(rollout, config, rules, snapshot),
            k,
        ),
        _ => {},
    }
}

/// Creating makes both sets of the new generation. Discarding deletes exactly these again, and
/// cleaning up exactly the sets that were noted; no stage but these deletes a set, and only the
/// activation touches a rule.
pub proof fn law_stages_keep_to_their_sets(
    rollout: Rollout,
    config: Config,
    rules: Seq<RenderedRule>,
    snapshot: Snapshot,
    set: AddressSet,
    k: int,
)
    ensures
        ({
            let steps = pending(rollout, config, rules, snapshot);
            &&& rollout.stage is Creating ==> (steps.contains(Step::AddSet(set)) <==> set.direction
                == rollout.direction && set.generation == rollout.generation)
            &&& rollout.stage is Discarding ==> (steps.contains(Step::DeleteSet(set))
                <==> set.direction == rollout.direction && set.generation == rollout.generation)
            &&& rollout.stage is CleaningUp ==> (steps.contains(Step::DeleteSet(set))
                <==> rollout.stale@.contains(set))
            &&& 0 <= k < steps.len() && steps[k] is DeleteSet && !(rollout.stage is Activating)
                ==> rollout.stage is Discarding || rollout.stage is CleaningUp
            &&& 0 <= k < steps.len() && (steps[k] is FlushChain || steps[k] is AddRule)
                ==> rollout.stage is Activating
            &&& 0 <= k < steps.len() ==> !(steps[k] is DeleteTable) || rollout.stage is Activating
        }),
{
    let steps = pending(rollout, config, rules, snapshot);
    let new = seq![rollout.set(false), rollout.set(true)];
    match rollout.stage {
        Stage::Creating => {
            crate::batch::law_a_generation_is_created_whole(
                rollout.direction,
                rollout.generation,
                set,
            );
        },
        Stage::Discarding => {
            crate::batch::law_exactly_the_given_sets_are_deleted(new, set, k);
            assert(new[0] == rollout.set(false) && new[1] == rollout.set(true));
            if set.direction == rollout.direction && set.generation == rollout.generation {
                assert(set == rollout.set(set.v6));
                assert(new[if set.v6 {
                    1
                } else {
                    0
                }] == set);
            }
        },
        Stage::CleaningUp => {
            crate::batch::law_exactly_the_given_sets_are_deleted(rollout.stale@, set, k);
        },
        _ => {},
    }
}

/// What is decided from the kernel's listing is decided by what it lists: which generation is new,
/// whether staged sets are whole, and which sets go.
pub proof fn law_listings_decide(
    sets: &Vec<SetInfo>,
    table: &String,
    direction: Direction,
    generation: u8,
    list: &ParsedBlocklist,
    free: Option<u8>,
    whole: bool,
    stale: Vec<AddressSet>,
    set: AddressSet,
)
    requires
        call_ensures(free_generation, (sets, table, direction), free),
        call_ensures(is_healthy, (sets, table, direction, generation, list), whole),
        call_ensures(stale_sets, (sets, table, direction, generation), stale),
    ensures
        free == Some(generation) ==> !is_taken(sets@, table@, direction, generation),
        free is None ==> is_taken(sets@, table@, direction, generation),
        whole <==> lists_elements(
            sets@,
            table@,
            (AddressSet { direction, v6: false, generation }).text(),
            list.ipv4@.len(),
        ) && lists_elements(
            sets@,
            table@,
            (AddressSet { direction, v6: true, generation }).text(),
            list.ipv6@.len(),
        ),
        stale@.contains(set) <==> set.direction == direction && set.generation != generation
            && lists_set(sets@, table@, set.text()),
{
    law_new_generations_are_unused(sets@, table@, direction, free, generation);
    law_both_families_are_checked(sets@, table@, direction, generation, *list);
    law_every_earlier_set_goes(sets@, table@, direction, generation, stale@, set);
}

} // verus!
