//! The nftables backend: what it is asked to do, and how it decides.
use crate::batch::Active;
use crate::batch::Step;
use crate::batch::Transaction;
use crate::batch::marker_name;
use crate::batch::removal_transaction;
use crate::config::Config;
use crate::config::Direction;
use crate::rollout::Action;
use crate::rollout::Rollout;
use crate::rules::RenderedRule;
use crate::text::contains_text;
use crate::text::insert_ascending;
use crate::text::quoted;
use crate::wire::Flowtable;
use crate::wire::SetInfo;
use crate::wire::WireError;
use vstd::prelude::*;
use vstd::string::*;

pub use crate::batch::Snapshot;

verus! {

/// The error number of an object that does not exist.
pub const ENOENT: i32 = 2;

/// A request that the system refused: the error number, where there is one, and what it says.
#[derive(Debug, Clone, PartialEq, Eq)]
pub struct IoFailure {
    pub errno: Option<i32>,
    pub message: String,
}

/// Why the backend could not do what it was asked.
#[derive(Debug, Clone, PartialEq, Eq)]
pub enum BackendError {
    Netlink(IoFailure),
    Disabled,
    FlowtableBypass(Vec<String>),
    InvalidName(String),
}

/// The names in quotes, separated by commas.
pub open spec fn listed_names(names: Seq<String>) -> Seq<char>
    decreases names.len(),
{
    if names.len() == 0 {
        Seq::empty()
    } else if names.len() == 1 {
        crate::text::quoted_text(names[0]@)
    } else {
        listed_names(names.drop_last()) + ", "@ + crate::text::quoted_text(names.last()@)
    }
}

fn list_names(names: &Vec<String>) -> (r: String)
    ensures
        r@ == listed_names(names@),
{
    if names.len() == 0 {
        let r = String::new();
        assert(r@ =~= Seq::empty());
        return r;
    }
    let mut r = quoted(names[0].as_str());
    let mut i: usize = 1;
    assert(names@.take(1)[0] == names@[0]);
    while i < names.len()
        invariant
            1 <= i <= names@.len(),
            r@ == listed_names(names@.take(i as int)),
        decreases names@.len() - i,
    {
        proof {
            assert(names@.take(i + 1).drop_last() =~= names@.take(i as int));
            assert(names@.take(i + 1).last() == names@[i as int]);
        }
        r = r.concat(", ").concat(quoted(names[i].as_str()).as_str());
        i = i + 1;
    }
    assert(names@.take(i as int) =~= names@);
    r
}

impl BackendError {
    /// The message that tells a user what went wrong.
    pub open spec fn text(self) -> Seq<char> {
        match self {
            BackendError::Netlink(failure) => "netlink transaction failed: "@ + failure.message@,
            BackendError::Disabled => "native netlink support was disabled at build time"@,
            BackendError::FlowtableBypass(names) =>
                "flowtable offload uses protected interface(s): {"@ + listed_names(names@) + "}"@,
            BackendError::InvalidName(name) => "invalid kernel object name: "@ + name@,
        }
    }

    /// The message that tells a user what went wrong.
    pub fn message(&self) -> (r: String)
        ensures
            r@ == self.text(),
    {
        match self {
            BackendError::Netlink(failure) => String::from_str(
                "netlink transaction failed: ",
            ).concat(failure.message.as_str()),
            BackendError::Disabled => String::from_str(
                "native netlink support was disabled at build time",
            ),
            BackendError::FlowtableBypass(names) => String::from_str(
                "flowtable offload uses protected interface(s): {",
            ).concat(list_names(names).as_str()).concat("}"),
            BackendError::InvalidName(name) => String::from_str(
                "invalid kernel object name: ",
            ).concat(name.as_str()),
        }
    }
}

/// The error in an answer, if there is one.
pub open spec fn refusal(answer: Result<(), BackendError>) -> Option<BackendError> {
    match answer {
        Ok(()) => None,
        Err(error) => Some(error),
    }
}

/// A request that a backend was given, and its answer.
pub enum Call {
    Apply {
        config: Config,
        rules: Seq<RenderedRule>,
        snapshot: Snapshot,
        refusal: Option<BackendError>,
    },
    ApplyDirection {
        config: Config,
        rules: Seq<RenderedRule>,
        direction: Direction,
        snapshot: Snapshot,
        refusal: Option<BackendError>,
    },
    FlowtableConflicts { protected: Seq<String>, answer: Result<Vec<String>, BackendError> },
    /// The backend was handed out, to be used directly.
    Direct,
}

/// The request to replace the whole table, and its answer.
pub open spec fn apply_call(
    config: Config,
    rules: Seq<RenderedRule>,
    snapshot: Snapshot,
    refusal: Option<BackendError>,
) -> Call {
    Call::Apply { config, rules, snapshot, refusal }
}

/// The request to refill one direction's sets, and its answer.
pub open spec fn direction_call(
    config: Config,
    rules: Seq<RenderedRule>,
    direction: Direction,
    snapshot: Snapshot,
    refusal: Option<BackendError>,
) -> Call {
    Call::ApplyDirection { config, rules, direction, snapshot, refusal }
}

/// The request for flowtable conflicts, and its answer.
pub open spec fn conflicts_call(
    protected: Seq<String>,
    answer: Result<Vec<String>, BackendError>,
) -> Call {
    Call::FlowtableConflicts { protected, answer }
}

/// Something that puts rules and lists into force.
pub trait Backend: Sized {
    /// Puts the rules and every list in use into force, each list in one kernel transaction.
    fn apply(&mut self, config: &Config, rules: &Vec<RenderedRule>, snapshot: &Snapshot) -> Result<
        (),
        BackendError,
    >;

    /// Atomically replaces only one direction's list.
    fn apply_direction(
        &mut self,
        config: &Config,
        rules: &Vec<RenderedRule>,
        direction: Direction,
        snapshot: &Snapshot,
    ) -> Result<(), BackendError>;

    /// The protected interfaces currently attached to any flowtable.
    fn flowtable_conflicts(&mut self, protected: &Vec<String>) -> Result<
        Vec<String>,
        BackendError,
    >;
}

/// A backend in this state, asked for flowtable conflicts, can give this answer.
pub open spec fn conflicts_reported<B: Backend>(
    before: B,
    protected: &Vec<String>,
    answer: Result<Vec<String>, BackendError>,
) -> bool {
    exists|backend: &mut B|
        *backend == before && #[trigger] call_ensures(
            B::flowtable_conflicts,
            (backend, protected),
            answer,
        )
}

/// The backend of a build without netlink support: it refuses everything.
pub struct DisabledBackend {}

impl DisabledBackend {
    pub fn new() -> (backend: Self)
        ensures
            backend == (DisabledBackend {  }),
    {
        DisabledBackend {  }
    }
}

impl Backend for DisabledBackend {
    fn apply(&mut self, _config: &Config, _rules: &Vec<RenderedRule>, _snapshot: &Snapshot) -> (r: Result<
        (),
        BackendError,
    >)
        ensures
            r == Err::<(), BackendError>(BackendError::Disabled),
    {
        Err(BackendError::Disabled)
    }

    fn apply_direction(
        &mut self,
        _config: &Config,
        _rules: &Vec<RenderedRule>,
        _direction: Direction,
        _snapshot: &Snapshot,
    ) -> (r: Result<(), BackendError>)
        ensures
            r == Err::<(), BackendError>(BackendError::Disabled),
    {
        Err(BackendError::Disabled)
    }

    fn flowtable_conflicts(&mut self, _protected: &Vec<String>) -> (r: Result<
        Vec<String>,
        BackendError,
    >)
        ensures
            r == Err::<Vec<String>, BackendError>(BackendError::Disabled),
    {
        Err(BackendError::Disabled)
    }
}

/// A backend, with a record of what it was asked and what it answered.
pub struct Recorded<B> {
    backend: B,
    calls: Ghost<Seq<Call>>,
}

impl<B: Backend> Recorded<B> {
    /// What the backend was asked so far, with its answers.
    pub closed spec fn calls(self) -> Seq<Call> {
        self.calls@
    }

    /// The backend as it stands.
    pub closed spec fn backend(self) -> B {
        self.backend
    }

    pub fn new(backend: B) -> (recorded: Self)
        ensures
            recorded.backend() == backend,
            recorded.calls() == Seq::<Call>::empty(),
    {
        Recorded { backend, calls: Ghost(Seq::empty()) }
    }

    /// Asks the backend to replace the whole table.
    pub fn apply(&mut self, config: &Config, rules: &Vec<RenderedRule>, snapshot: &Snapshot) -> (r: Result<
        (),
        BackendError,
    >)
        ensures
            exists|backend: &mut B|
                *backend == old(self).backend() && *final(backend) == final(self).backend()
                    && #[trigger] call_ensures(B::apply, (backend, config, rules, snapshot), r),
            final(self).calls() == old(self).calls().push(
                apply_call(*config, rules@, *snapshot, refusal(r)),
            ),
    {
        let r = self.backend.apply(config, rules, snapshot);
        self.calls = Ghost(self.calls@.push(apply_call(*config, rules@, *snapshot, refusal(r))));
        r
    }

    /// Asks the backend to refill one direction's sets.
    pub fn apply_direction(
        &mut self,
        config: &Config,
        rules: &Vec<RenderedRule>,
        direction: Direction,
        snapshot: &Snapshot,
    ) -> (r: Result<(), BackendError>)
        ensures
            exists|backend: &mut B|
                *backend == old(self).backend() && *final(backend) == final(self).backend()
                    && #[trigger] call_ensures(
                    B::apply_direction,
                    (backend, config, rules, direction, snapshot),
                    r,
                ),
            final(self).calls() == old(self).calls().push(
                direction_call(*config, rules@, direction, *snapshot, refusal(r)),
            ),
    {
        let r = self.backend.apply_direction(config, rules, direction, snapshot);
        self.calls = Ghost(
            self.calls@.push(direction_call(*config, rules@, direction, *snapshot, refusal(r))),
        );
        r
    }

    /// Asks the backend which protected interfaces a flowtable uses.
    pub fn flowtable_conflicts(&mut self, protected: &Vec<String>) -> (r: Result<
        Vec<String>,
        BackendError,
    >)
        ensures
            exists|backend: &mut B|
                *backend == old(self).backend() && *final(backend) == final(self).backend()
                    && #[trigger] call_ensures(B::flowtable_conflicts, (backend, protected), r),
            final(self).calls() == old(self).calls().push(conflicts_call(protected@, r)),
    {
        let r = self.backend.flowtable_conflicts(protected);
        self.calls = Ghost(self.calls@.push(conflicts_call(protected@, r)));
        r
    }

    /// The backend itself. What is done to it directly is not recorded, only that it was handed
    /// out.
    pub fn inner(&mut self) -> (r: &mut B)
        ensures
            *r == old(self).backend(),
            final(self).backend() == *final(r),
            final(self).calls() == old(self).calls().push(Call::Direct),
    {
        self.calls = Ghost(self.calls@.push(Call::Direct));
        &mut self.backend
    }
}

/// The native backend: the generations that it has put into force. A request is carried out as a
/// rollout.
#[derive(Debug, Clone, PartialEq, Eq)]
pub struct NftnlBackend {
    active: Active,
}

impl NftnlBackend {
    /// The generations known to be in force.
    pub closed spec fn active(self) -> Active {
        self.active
    }

    pub fn new() -> (backend: Self)
        ensures
            backend.active() == (Active { inbound: None, outbound: None }),
    {
        NftnlBackend { active: Active { inbound: None, outbound: None } }
    }

    /// Begins a request: to replace every list in use, or one list.
    pub fn begin(&self, config: &Config, direction: Option<Direction>, supported: bool) -> (r: (
        Rollout,
        Action,
    ))
        ensures
            r.0.begun(*config, direction, supported, self.active()),
            r.1 == crate::rollout::first_action(r.0),
    {
        Rollout::new(config, direction, supported, self.active)
    }

    /// Takes over which generations are in force once a rollout is over.
    pub fn finish(&mut self, rollout: &Rollout)
        ensures
            final(self).active() == rollout.active,
    {
        self.active = rollout.active;
    }
}

impl Default for NftnlBackend {
    fn default() -> (backend: Self)
        ensures
            backend.active() == (Active { inbound: None, outbound: None }),
    {
        NftnlBackend::new()
    }
}

/// The acknowledgements that a transaction still waits for, by sequence number.
#[derive(Debug, Clone, PartialEq, Eq)]
pub struct Acks {
    next: u32,
    end: u32,
}

impl Acks {
    /// The sequence numbers not acknowledged yet: from the first of these up to the second.
    pub closed spec fn pending(self) -> (u32, u32) {
        (self.next, self.end)
    }

    /// The acknowledgements for the sequence numbers from `first` up to `end`.
    pub fn new(first: u32, end: u32) -> (acks: Self)
        ensures
            acks.pending() == (first, end),
    {
        Acks { next: first, end }
    }

    /// Whether every acknowledgement has come.
    pub fn is_complete(&self) -> (r: bool)
        ensures
            r == (self.pending().0 >= self.pending().1),
    {
        self.next >= self.end
    }

    /// The sequence number that the next acknowledgement must have.
    pub fn expect(&mut self) -> (r: Result<u32, WireError>)
        ensures
            ({
                let (next, end) = old(self).pending();
                if next < end {
                    r == Ok::<u32, WireError>(next) && final(self).pending() == (
                        (next + 1) as u32,
                        end,
                    )
                } else {
                    r == Err::<u32, WireError>(WireError::UnexpectedAck) && final(self).pending()
                        == old(self).pending()
                }
            }),
    {
        if self.next < self.end {
            let seq: u32 = self.next;
            self.next = self.next + 1;
            Ok(seq)
        } else {
            Err(WireError::UnexpectedAck)
        }
    }
}

/// The devices of the flowtables seen so far.
#[derive(Debug)]
pub struct DumpState {
    devices: Vec<String>,
}

/// The text is the name of one of the devices.
pub open spec fn names_device(names: Seq<Seq<char>>, name: Seq<char>) -> bool {
    names.contains(name)
}

impl DumpState {
    /// The devices seen so far.
    pub closed spec fn devices(self) -> Seq<String> {
        self.devices@
    }

    /// The devices are sorted, each once.
    pub open spec fn wf(self) -> bool {
        crate::text::ascending(self.devices())
    }

    pub fn new() -> (state: Self)
        ensures
            state.wf(),
            state.devices().len() == 0,
    {
        DumpState { devices: Vec::new() }
    }

    /// Takes in a flowtable of the dump; one that cannot be read changes nothing.
    pub fn collect(&mut self, table: &Flowtable) -> (r: Result<(), WireError>)
        requires
            old(self).wf(),
        ensures
            final(self).wf(),
            match table.names() {
                Ok(names) => r is Ok && forall|t: Seq<char>| #[trigger]
                    crate::text::has_text(final(self).devices(), t) <==> crate::text::has_text(
                        old(self).devices(),
                        t,
                    ) || names_device(names, t),
                Err(error) => r == Err::<(), WireError>(error) && final(self).devices() == old(self).devices(),
            },
    {
        let names = match table.device_names() {
            Ok(names) => names,
            Err(error) => {
                return Err(error);
            },
        };
        let ghost before = self.devices@;
        let ghost all = crate::wire::texts(names@);
        let mut i: usize = 0;
        assert forall|t: Seq<char>| #[trigger]
            crate::text::has_text(self.devices@, t) <==> crate::text::has_text(before, t)
                || names_device(all.take(0), t) by {
        }
        while i < names.len()
            invariant
                i <= names@.len(),
                all == crate::wire::texts(names@),
                crate::text::ascending(self.devices@),
                forall|t: Seq<char>| #[trigger]
                    crate::text::has_text(self.devices@, t) <==> crate::text::has_text(before, t)
                        || names_device(all.take(i as int), t),
            decreases names@.len() - i,
        {
            let ghost earlier = self.devices@;
            insert_ascending(&mut self.devices, &names[i]);
            proof {
                let (a, b) = (all.take(i as int), all.take(i + 1));
                assert(b =~= a.push(all[i as int]));
                assert forall|t: Seq<char>| #[trigger]
                    crate::text::has_text(self.devices@, t) <==> crate::text::has_text(before, t)
                        || names_device(b, t) by {
                    assert(crate::text::has_text(earlier, t) <==> crate::text::has_text(before, t)
                        || names_device(a, t));
                    if names_device(a, t) {
                        let k = choose|k: int| 0 <= k < a.len() && a[k] == t;
                        assert(b[k] == t);
                    }
                    if t == names@[i as int]@ {
                        assert(b[i as int] == t);
                    }
                    if names_device(b, t) {
                        let k = choose|k: int| 0 <= k < b.len() && b[k] == t;
                        if k < i {
                            assert(a[k] == t);
                        }
                    }
                }
            }
            i = i + 1;
        }
        assert(all.take(i as int) =~= all);
        Ok(())
    }

    /// The protected interfaces among the devices, sorted, each once.
    pub fn conflicts(&self, protected: &Vec<String>) -> (r: Vec<String>)
        requires
            self.wf(),
        ensures
            crate::text::ascending(r@),
            forall|t: Seq<char>| #[trigger]
                crate::text::has_text(r@, t) <==> crate::text::has_text(self.devices(), t)
                    && crate::text::has_text(protected@, t),
    {
        let ghost devices = self.devices@;
        let mut r: Vec<String> = Vec::new();
        let mut i: usize = 0;
        assert forall|t: Seq<char>| #[trigger]
            crate::text::has_text(r@, t) <==> crate::text::has_text(devices.take(0), t)
                && crate::text::has_text(protected@, t) by {
        }
        while i < self.devices.len()
            invariant
                i <= devices.len(),
                devices == self.devices@,
                crate::text::ascending(r@),
                forall|t: Seq<char>| #[trigger]
                    crate::text::has_text(r@, t) <==> crate::text::has_text(
                        devices.take(i as int),
                        t,
                    ) && crate::text::has_text(protected@, t),
            decreases devices.len() - i,
        {
            let ghost earlier = r@;
            let ghost name = devices[i as int]@;
            let found = contains_text(protected, &self.devices[i]);
            if found {
                insert_ascending(&mut r, &self.devices[i]);
            }
            proof {
                crate::zones::lemma_has_text_take(devices, i as int);
                assert forall|t: Seq<char>| #[trigger]
                    crate::text::has_text(r@, t) <==> crate::text::has_text(
                        devices.take(i + 1),
                        t,
                    ) && crate::text::has_text(protected@, t) by {
                    assert(crate::text::has_text(earlier, t) <==> crate::text::has_text(
                        devices.take(i as int),
                        t,
                    ) && crate::text::has_text(protected@, t));
                }
            }
            i = i + 1;
        }
        assert(devices.take(i as int) =~= devices);
        r
    }
}

/// The table has a set of this name.
pub open spec fn has_set(sets: Seq<SetInfo>, table: Seq<char>, name: Seq<char>) -> bool {
    exists|k: int|
        0 <= k < sets.len() && (#[trigger] sets[k]).table@ == table && sets[k].name@ == name
}

/// Whether the table has a set of this name.
pub fn finds_set(sets: &Vec<SetInfo>, table: &String, name: &String) -> (r: bool)
    ensures
        r == has_set(sets@, table@, name@),
{
    let mut k: usize = 0;
    while k < sets.len()
        invariant
            k <= sets@.len(),
            forall|j: int|
                0 <= j < k ==> !((#[trigger] sets@[j]).table@ == table@ && sets@[j].name@
                    == name@),
        decreases sets@.len() - k,
    {
        if sets[k].table == *table && sets[k].name == *name {
            return true;
        }
        k = k + 1;
    }
    false
}

/// The table is laid out as this program lays its table out: it has the layout marker.
pub open spec fn recognized(sets: Seq<SetInfo>, table: Seq<char>) -> bool {
    has_set(sets, table, crate::batch::marker())
}

/// Whether a table is laid out as this program lays its table out. Only such a table is touched.
pub fn recognizes_layout(sets: &Vec<SetInfo>, table: &String) -> (r: bool)
    ensures
        r == recognized(sets@, table@),
{
    finds_set(sets, table, &String::from_str(marker_name()))
}

/// The transaction that removes the table, given the sets that the kernel has. It comes only for a
/// table with the layout marker; any other table is not touched.
pub fn cleanup_transaction(sets: &Vec<SetInfo>, config: &Config) -> (r: Option<Transaction>)
    ensures
        match r {
            Some(removal) => {
                &&& recognized(sets@, config.nftables.table@)
                &&& !crate::batch::bad_table(*config)
                &&& removal.performs(*config, seq![Step::DeleteTable])
            },
            None => !recognized(sets@, config.nftables.table@) || crate::batch::bad_table(*config),
        },
{
    if recognizes_layout(sets, &config.nftables.table) {
        removal_transaction(config)
    } else {
        None
    }
}

/// A table is removed exactly where it has the layout marker and a name that the kernel can have,
/// and then as a whole; nothing else is done to it.
pub proof fn law_only_marked_tables_are_removed(
    sets: &Vec<SetInfo>,
    config: &Config,
    r: Option<Transaction>,
)
    requires
        call_ensures(cleanup_transaction, (sets, config), r),
    ensures
        r is Some <==> crate::rollout::lists_set(
            sets@,
            config.nftables.table@,
            "cidrwall_layout_1"@,
        ) && !config.nftables.table@.contains('\0'),
        r matches Some(removal) ==> removal.table@ == config.nftables.table@
            && removal.messages@.len() == 1 && removal.messages@[0] is DeleteTable,
{
    crate::rollout::lemma_lists_set(sets@, config.nftables.table@, "cidrwall_layout_1"@);
    crate::batch::law_only_nul_makes_a_table_bad(*config);
    match r {
        Some(removal) => {
            crate::batch::law_transactions_are_the_steps(
                removal,
                *config,
                seq![Step::DeleteTable],
                0,
            );
        },
        None => {},
    }
}

/// The conflicts are the devices that are protected too, whichever flowtable has them.
pub proof fn law_conflicts_are_protected_devices(
    state: &DumpState,
    protected: &Vec<String>,
    conflicts: Vec<String>,
    name: Seq<char>,
)
    requires
        call_ensures(DumpState::conflicts, (state, protected), conflicts),
    ensures
        (exists|k: int| 0 <= k < conflicts@.len() && (#[trigger] conflicts@[k])@ == name) <==> (
        exists|i: int| 0 <= i < state.devices().len() && (#[trigger] state.devices()[i])@ == name)
            && (exists|j: int| 0 <= j < protected@.len() && (#[trigger] protected@[j])@ == name),
{
    assert(crate::text::has_text(conflicts@, name) <==> crate::text::has_text(
        state.devices(),
        name,
    ) && crate::text::has_text(protected@, name));
}

/// Every acknowledgement that is still missing is expected in turn, and no other: the next one has
/// the next number, and then one less is missing. Once none is missing, none is expected.
pub proof fn law_acknowledgements_are_expected_in_turn()
    ensures
        forall|acks: &mut Acks, r: Result<u32, WireError>| #[trigger]
            call_ensures(Acks::expect, (acks,), r) ==> {
                let (next, end) = (*acks).pending();
                let (after, last) = (*final(acks)).pending();
                &&& last == end
                &&& r is Ok <==> next < end
                &&& r is Ok ==> r->Ok_0 == next && after == next + 1
                &&& r is Err ==> after == next && r->Err_0 is UnexpectedAck
            },
        forall|acks: &Acks, complete: bool| #[trigger]
            call_ensures(Acks::is_complete, (acks,), complete) ==> (complete <==> !(
            acks.pending().0 < acks.pending().1)),
{
}

} // verus!
