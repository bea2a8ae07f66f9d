//! The transactions that set the firewall up, as plain messages.
use crate::address::AddressInterval;
use crate::blocklist::ParsedBlocklist;
use crate::config::Config;
use crate::config::Direction;
use crate::rules::AddressField;
use crate::rules::RenderedRule;
use crate::text::decimal;
use crate::text::has_nul;
use crate::zones::Chain;
use vstd::prelude::*;
use vstd::string::*;

verus! {

/// The active content of both blocklists.
#[derive(Debug, Clone, PartialEq, Eq)]
pub struct Snapshot {
    pub inbound: ParsedBlocklist,
    pub outbound: ParsedBlocklist,
}

impl Snapshot {
    pub open spec fn list(self, direction: Direction) -> ParsedBlocklist {
        match direction {
            Direction::Inbound => self.inbound,
            Direction::Outbound => self.outbound,
        }
    }
}

impl Default for Snapshot {
    fn default() -> (snapshot: Self)
        ensures
            snapshot.inbound.lists(Seq::empty()),
            snapshot.outbound.lists(Seq::empty()),
    {
        Snapshot { inbound: ParsedBlocklist::default(), outbound: ParsedBlocklist::default() }
    }
}

/// An address set. Each load of a list has sets of its own, told apart by a generation number.
#[derive(Debug, Clone, Copy, PartialEq, Eq, Structural)]
pub struct AddressSet {
    pub direction: Direction,
    pub v6: bool,
    pub generation: u8,
}

impl AddressSet {
    /// The name without the generation.
    pub open spec fn stem(self) -> Seq<char> {
        match (self.direction, self.v6) {
            (Direction::Inbound, false) => "inbound_v4_"@,
            (Direction::Inbound, true) => "inbound_v6_"@,
            (Direction::Outbound, false) => "outbound_v4_"@,
            (Direction::Outbound, true) => "outbound_v6_"@,
        }
    }

    pub open spec fn text(self) -> Seq<char> {
        self.stem() + crate::text::decimal_digits(self.generation as nat)
    }

    /// The name of the set in its table.
    pub fn name(self) -> (r: String)
        ensures
            r@ == self.text(),
    {
        let stem = match (self.direction, self.v6) {
            (Direction::Inbound, false) => "inbound_v4_",
            (Direction::Inbound, true) => "inbound_v6_",
            (Direction::Outbound, false) => "outbound_v4_",
            (Direction::Outbound, true) => "outbound_v6_",
        };
        String::from_str(stem).concat(decimal(self.generation as u64).as_str())
    }

    pub open spec fn number(self) -> u32 {
        match (self.direction, self.v6) {
            (Direction::Inbound, false) => 1,
            (Direction::Inbound, true) => 2,
            (Direction::Outbound, false) => 3,
            (Direction::Outbound, true) => 4,
        }
    }

    /// The number of the set within the transaction that creates its generation.
    pub fn id(self) -> (r: u32)
        ensures
            r == self.number(),
    {
        match (self.direction, self.v6) {
            (Direction::Inbound, false) => 1,
            (Direction::Inbound, true) => 2,
            (Direction::Outbound, false) => 3,
            (Direction::Outbound, true) => 4,
        }
    }
}

/// Different sets have different names, and none is named like the layout marker. Sets of one
/// generation have different numbers.
pub proof fn law_sets_are_distinct(a: AddressSet, b: AddressSet)
    requires
        a != b,
    ensures
        a.text() != b.text(),
        a.text() != marker(),
        a.generation == b.generation ==> a.number() != b.number(),
{
    reveal_strlit("inbound_v4_");
    reveal_strlit("inbound_v6_");
    reveal_strlit("outbound_v4_");
    reveal_strlit("outbound_v6_");
    reveal_strlit("cidrwall_layout_1");
    let (x, y) = (a.text(), b.text());
    assert(x[0] == a.stem()[0] && y[0] == b.stem()[0]);
    assert(x[9] == a.stem()[9] && y[9] == b.stem()[9]);
    assert(x[10] == a.stem()[10] && y[10] == b.stem()[10]);
    if x == y {
        let n = a.stem().len() as int;
        assert(a.stem() == b.stem());
        assert(x.skip(n) =~= crate::text::decimal_digits(a.generation as nat));
        assert(y.skip(n) =~= crate::text::decimal_digits(b.generation as nat));
        crate::links::law_link_names_read_back(a.generation as u32);
        crate::links::law_link_names_read_back(b.generation as u32);
    }
}

/// The name of the empty set that marks a table as laid out in this way.
pub open spec fn marker() -> Seq<char> {
    "cidrwall_layout_1"@
}

/// The name of the empty set that marks a table as laid out in this way.
pub fn marker_name() -> (r: &'static str)
    ensures
        r@ == marker(),
{
    "cidrwall_layout_1"
}

/// The generation of each direction's sets that the rules look addresses up in, where there is one.
#[derive(Debug, Clone, Copy, PartialEq, Eq, Structural)]
pub struct Active {
    pub inbound: Option<u8>,
    pub outbound: Option<u8>,
}

impl Active {
    pub open spec fn generation(self, direction: Direction) -> Option<u8> {
        match direction {
            Direction::Inbound => self.inbound,
            Direction::Outbound => self.outbound,
        }
    }

    pub fn of(self, direction: Direction) -> (r: Option<u8>)
        ensures
            r == self.generation(direction),
    {
        match direction {
            Direction::Inbound => self.inbound,
            Direction::Outbound => self.outbound,
        }
    }

    pub open spec fn replaced(self, direction: Direction, generation: u8) -> Active {
        match direction {
            Direction::Inbound => Active { inbound: Some(generation), outbound: self.outbound },
            Direction::Outbound => Active { inbound: self.inbound, outbound: Some(generation) },
        }
    }

    /// The same, with another generation for one direction.
    pub fn with(self, direction: Direction, generation: u8) -> (r: Active)
        ensures
            r == self.replaced(direction, generation),
    {
        match direction {
            Direction::Inbound => Active { inbound: Some(generation), outbound: self.outbound },
            Direction::Outbound => Active { inbound: self.inbound, outbound: Some(generation) },
        }
    }
}

/// A boundary of an interval in a set: its first address, or the address behind its last.
#[derive(Debug, Clone, Copy, PartialEq, Eq, Structural)]
#[allow(inconsistent_fields)]
pub enum Element {
    V4 { address: u32, interval_end: bool },
    V6 { address: u128, interval_end: bool },
}

impl Element {
    pub open spec fn v6(self) -> bool {
        self is V6
    }

    pub open spec fn value(self) -> int {
        match self {
            Element::V4 { address, .. } => address as int,
            Element::V6 { address, .. } => address as int,
        }
    }

    pub open spec fn ends(self) -> bool {
        match self {
            Element::V4 { interval_end, .. } => interval_end,
            Element::V6 { interval_end, .. } => interval_end,
        }
    }
}

/// What a rule does with a packet, step by step. A step that does not match ends the rule.
#[derive(Debug, Clone, PartialEq, Eq)]
pub enum Expression {
    /// Load the name of the ingress interface.
    MetaIngress,
    /// Load the name of the egress interface.
    MetaEgress,
    /// Go on if the loaded name is this one.
    CompareInterface(String),
    /// Load the address family.
    MetaFamily,
    /// Go on if the loaded family is this one.
    CompareFamily { v6: bool },
    /// Load an address from the packet's header.
    Payload { v6: bool, field: AddressField },
    /// Go on if the loaded address is in the set.
    Lookup(AddressSet),
    /// Drop the packet.
    Drop,
}

/// One message of a transaction.
#[derive(Debug, Clone, PartialEq, Eq)]
pub enum Message {
    DeleteTable,
    AddTable,
    /// Add the empty set that marks the table's layout.
    AddMarker,
    AddChain { chain: Chain, priority: i32 },
    AddSet(AddressSet),
    AddElements { set: AddressSet, elements: Vec<Element> },
    DeleteSet(AddressSet),
    /// Delete every rule of the chain.
    FlushChain(Chain),
    AddRule { chain: Chain, expressions: Vec<Expression> },
}

/// One message of a transaction, over mathematical values.
#[verifier::ext_equal]
pub enum Step {
    DeleteTable,
    AddTable,
    AddMarker,
    AddChain { chain: Chain, priority: i32 },
    AddSet(AddressSet),
    AddElements { set: AddressSet, elements: Seq<Element> },
    DeleteSet(AddressSet),
    FlushChain(Chain),
    AddRule { chain: Chain, expressions: Seq<Expression> },
}

impl Message {
    pub open spec fn step(self) -> Step {
        match self {
            Message::DeleteTable => Step::DeleteTable,
            Message::AddTable => Step::AddTable,
            Message::AddMarker => Step::AddMarker,
            Message::AddChain { chain, priority } => Step::AddChain { chain, priority },
            Message::AddSet(set) => Step::AddSet(set),
            Message::AddElements { set, elements } => Step::AddElements { set, elements: elements@ },
            Message::DeleteSet(set) => Step::DeleteSet(set),
            Message::FlushChain(chain) => Step::FlushChain(chain),
            Message::AddRule { chain, expressions } => Step::AddRule {
                chain,
                expressions: expressions@,
            },
        }
    }
}

pub open spec fn steps(messages: Seq<Message>) -> Seq<Step> {
    messages.map_values(|m: Message| m.step())
}

/// The messages of one kernel transaction on one table.
#[derive(Debug, Clone, PartialEq, Eq)]
pub struct Transaction {
    pub table: String,
    pub page_bytes: u32,
    pub messages: Vec<Message>,
}

/// The boundaries of one interval: its first address and, unless it reaches the end of the address
/// space, the address behind its last.
pub open spec fn boundaries(interval: AddressInterval) -> Seq<Element> {
    match interval {
        AddressInterval::V4 { first, after_last } => {
            let start = Element::V4 { address: first, interval_end: false };
            match after_last {
                Some(end) => seq![start, Element::V4 { address: end, interval_end: true }],
                None => seq![start],
            }
        },
        AddressInterval::V6 { first, after_last } => {
            let start = Element::V6 { address: first, interval_end: false };
            match after_last {
                Some(end) => seq![start, Element::V6 { address: end, interval_end: true }],
                None => seq![start],
            }
        },
    }
}

/// The boundaries of the intervals, in order.
pub open spec fn all_boundaries(intervals: Seq<AddressInterval>) -> Seq<Element>
    decreases intervals.len(),
{
    if intervals.len() == 0 {
        Seq::empty()
    } else {
        all_boundaries(intervals.drop_last()) + boundaries(intervals.last())
    }
}

/// The set for a direction, a family and a generation.
pub open spec fn set_of(direction: Direction, v6: bool, generation: u8) -> AddressSet {
    AddressSet { direction, v6, generation }
}

/// The intervals of one family.
pub open spec fn family_of(list: ParsedBlocklist, v6: bool) -> Seq<AddressInterval> {
    if v6 {
        list.ipv6@
    } else {
        list.ipv4@
    }
}

/// The expressions that test one side of a packet against an interface, if the rule has one.
pub open spec fn interface_test(load: Expression, name: Option<String>) -> Seq<Expression> {
    match name {
        Some(name) => seq![load, Expression::CompareInterface(name)],
        None => Seq::empty(),
    }
}

/// The expressions of a rule for one address family and a generation of its list.
pub open spec fn expressions(rule: RenderedRule, v6: bool, generation: u8) -> Seq<Expression> {
    interface_test(Expression::MetaIngress, rule.ingress) + interface_test(
        Expression::MetaEgress,
        rule.egress,
    ) + seq![
        Expression::MetaFamily,
        Expression::CompareFamily { v6 },
        Expression::Payload { v6, field: rule.address },
        Expression::Lookup(set_of(rule.direction, v6, generation)),
        Expression::Drop,
    ]
}

/// The step that installs a rule for one address family.
pub open spec fn rule_step(rule: RenderedRule, v6: bool, generation: u8) -> Step {
    Step::AddRule { chain: rule.chain, expressions: expressions(rule, v6, generation) }
}

/// The steps that install one rule: its IPv4 form, then its IPv6 form. A rule whose list has no
/// generation yet is left out.
pub open spec fn forms_steps(rule: RenderedRule, active: Active) -> Seq<Step> {
    match active.generation(rule.direction) {
        Some(generation) => seq![
            rule_step(rule, false, generation),
            rule_step(rule, true, generation),
        ],
        None => Seq::empty(),
    }
}

/// The steps that install the rules, in order.
pub open spec fn rule_steps(rules: Seq<RenderedRule>, active: Active) -> Seq<Step>
    decreases rules.len(),
{
    if rules.len() == 0 {
        Seq::empty()
    } else {
        rule_steps(rules.drop_last(), active) + forms_steps(rules.last(), active)
    }
}

/// The steps that set the table up: the marker of its layout, and its base chains.
pub open spec fn setup_steps(priority: i32) -> Seq<Step> {
    seq![
        Step::AddTable,
        Step::AddMarker,
        Step::AddChain { chain: Chain::Input, priority },
        Step::AddChain { chain: Chain::Forward, priority },
        Step::AddChain { chain: Chain::Output, priority },
    ]
}

/// The steps that create the sets of a generation. No rule refers to them yet.
pub open spec fn creation_steps(direction: Direction, generation: u8) -> Seq<Step> {
    seq![
        Step::AddSet(set_of(direction, false, generation)),
        Step::AddSet(set_of(direction, true, generation)),
    ]
}

/// The step that puts some intervals into a set.
pub open spec fn population_steps(set: AddressSet, intervals: Seq<AddressInterval>) -> Seq<Step> {
    seq![Step::AddElements { set, elements: all_boundaries(intervals) }]
}

/// The steps that put the rules into force, with the generations that they look addresses up in:
/// what was in the chains goes, and the rules come.
pub open spec fn activation_steps(rules: Seq<RenderedRule>, active: Active) -> Seq<Step> {
    seq![
        Step::FlushChain(Chain::Input),
        Step::FlushChain(Chain::Forward),
        Step::FlushChain(Chain::Output),
    ] + rule_steps(rules, active)
}

/// The steps that delete sets.
pub open spec fn deletion_steps(sets: Seq<AddressSet>) -> Seq<Step> {
    sets.map_values(|set: AddressSet| Step::DeleteSet(set))
}

/// Where the part of the list that one population holds ends: as far as its set elements stay
/// within the limit, and behind the first interval in any case.
pub open spec fn is_cut(intervals: Seq<AddressInterval>, from: int, to: int, limit: nat) -> bool {
    &&& from < to <= intervals.len()
    &&& to == from + 1 || all_boundaries(intervals.subrange(from, to)).len() <= limit
    &&& to < intervals.len() ==> all_boundaries(intervals.subrange(from, to + 1)).len() > limit
}

proof fn lemma_boundaries_push(intervals: Seq<AddressInterval>, interval: AddressInterval)
    ensures
        all_boundaries(intervals.push(interval)) == all_boundaries(intervals) + boundaries(
            interval,
        ),
{
    assert(intervals.push(interval).drop_last() =~= intervals);
}

/// The boundaries of two lists, one after the other.
pub proof fn lemma_boundaries_append(a: Seq<AddressInterval>, b: Seq<AddressInterval>)
    ensures
        all_boundaries(a + b) == all_boundaries(a) + all_boundaries(b),
    decreases b.len(),
{
    if b.len() == 0 {
        assert(a + b =~= a);
        assert(all_boundaries(a) + Seq::empty() =~= all_boundaries(a));
    } else {
        lemma_boundaries_append(a, b.drop_last());
        assert((a + b).drop_last() =~= a + b.drop_last());
        assert((a + b).last() == b.last());
        assert(all_boundaries(a + b) =~= all_boundaries(a) + all_boundaries(b));
    }
}

/// How far a list has been cut.
pub open spec fn reached(ends: Seq<int>) -> int {
    if ends.len() == 0 {
        0
    } else {
        ends.last()
    }
}

/// The places are the ends of consecutive cuts, from the start of the list on.
pub open spec fn are_cuts(intervals: Seq<AddressInterval>, ends: Seq<int>, limit: nat) -> bool
    decreases ends.len(),
{
    ends.len() > 0 ==> {
        &&& are_cuts(intervals, ends.drop_last(), limit)
        &&& is_cut(intervals, reached(ends.drop_last()), ends.last(), limit)
    }
}

/// The elements of the parts into which a list is cut, each for one population.
pub open spec fn parts(intervals: Seq<AddressInterval>, ends: Seq<int>) -> Seq<Seq<Element>>
    decreases ends.len(),
{
    if ends.len() == 0 {
        Seq::empty()
    } else {
        parts(intervals, ends.drop_last()).push(
            all_boundaries(intervals.subrange(reached(ends.drop_last()), ends.last())),
        )
    }
}

/// The elements of the parts, one after the other.
pub open spec fn joined_parts(parts: Seq<Seq<Element>>) -> Seq<Element>
    decreases parts.len(),
{
    if parts.len() == 0 {
        Seq::empty()
    } else {
        joined_parts(parts.drop_last()) + parts.last()
    }
}

/// Consecutive cuts of a list lose nothing, double nothing and keep the order: the parts one after
/// the other are the boundaries of the list as far as it was cut.
pub proof fn law_populations_are_the_list(
    intervals: Seq<AddressInterval>,
    ends: Seq<int>,
    limit: nat,
)
    requires
        are_cuts(intervals, ends, limit),
    ensures
        0 <= reached(ends) <= intervals.len(),
        joined_parts(parts(intervals, ends)) == all_boundaries(intervals.take(reached(ends))),
    decreases ends.len(),
{
    if ends.len() == 0 {
        assert(intervals.take(0) =~= Seq::empty());
    } else {
        let before = ends.drop_last();
        law_populations_are_the_list(intervals, before, limit);
        let part = intervals.subrange(reached(before), ends.last());
        lemma_boundaries_append(intervals.take(reached(before)), part);
        assert(intervals.take(reached(before)) + part =~= intervals.take(ends.last()));
        assert(parts(intervals, ends).drop_last() =~= parts(intervals, before));
    }
}

/// No part into which a list is cut has more elements than the limit, except for a part of a single
/// interval, which needs two at most.
pub proof fn law_populations_are_bounded(
    intervals: Seq<AddressInterval>,
    from: int,
    to: int,
    limit: nat,
)
    requires
        0 <= from,
        is_cut(intervals, from, to, limit),
    ensures
        all_boundaries(intervals.subrange(from, to)).len() <= limit || to == from + 1
            && all_boundaries(intervals.subrange(from, to)).len() <= 2,
{
    if to == from + 1 {
        let part = intervals.subrange(from, to);
        assert(part =~= Seq::empty().push(intervals[from]));
        lemma_boundaries_push(Seq::empty(), intervals[from]);
        assert(all_boundaries(Seq::empty()).len() == 0);
    }
}

/// The end of the part of the list that one population holds.
pub fn cut(intervals: &Vec<AddressInterval>, from: usize, limit: u32) -> (to: usize)
    requires
        from < intervals.len(),
    ensures
        is_cut(intervals@, from as int, to as int, limit as nat),
{
    let mut to: usize = from + 1;
    let mut elements: u64 = intervals[from].boundary_elements() as u64;
    proof {
        lemma_boundary_count(intervals@[from as int]);
        lemma_boundaries_push(Seq::empty(), intervals@[from as int]);
        assert(intervals@.subrange(from as int, from + 1) =~= Seq::empty().push(
            intervals@[from as int],
        ));
    }
    while to < intervals.len()
        invariant
            from < to <= intervals@.len(),
            elements == all_boundaries(intervals@.subrange(from as int, to as int)).len(),
            to == from + 1 || elements <= limit,
            elements <= limit + 2,
        decreases intervals@.len() - to,
    {
        let more: u64 = intervals[to].boundary_elements() as u64;
        proof {
            lemma_boundary_count(intervals@[to as int]);
            lemma_boundaries_push(
                intervals@.subrange(from as int, to as int),
                intervals@[to as int],
            );
            assert(intervals@.subrange(from as int, to + 1) =~= intervals@.subrange(
                from as int,
                to as int,
            ).push(intervals@[to as int]));
        }
        if elements + more > limit as u64 {
            return to;
        }
        elements = elements + more;
        to = to + 1;
    }
    to
}

proof fn lemma_boundary_count(interval: AddressInterval)
    ensures
        boundaries(interval).len() == interval.span().boundaries(),
{
    crate::address::lemma_space();
}

/// The boundaries of a part of the intervals.
fn boundary_elements_of(intervals: &Vec<AddressInterval>, from: usize, to: usize) -> (r: Vec<
    Element,
>)
    requires
        from <= to <= intervals@.len(),
    ensures
        r@ == all_boundaries(intervals@.subrange(from as int, to as int)),
{
    let mut r: Vec<Element> = Vec::new();
    let mut i: usize = from;
    assert(intervals@.subrange(from as int, from as int) =~= Seq::empty());
    while i < to
        invariant
            from <= i <= to <= intervals@.len(),
            r@ == all_boundaries(intervals@.subrange(from as int, i as int)),
        decreases to - i,
    {
        let ghost before = r@;
        proof {
            let part = intervals@.subrange(from as int, i as int);
            assert(intervals@.subrange(from as int, i + 1) =~= part.push(intervals@[i as int]));
            lemma_boundaries_push(part, intervals@[i as int]);
        }
        match intervals[i] {
            AddressInterval::V4 { first, after_last } => {
                r.push(Element::V4 { address: first, interval_end: false });
                match after_last {
                    Some(end) => r.push(Element::V4 { address: end, interval_end: true }),
                    None => {},
                }
            },
            AddressInterval::V6 { first, after_last } => {
                r.push(Element::V6 { address: first, interval_end: false });
                match after_last {
                    Some(end) => r.push(Element::V6 { address: end, interval_end: true }),
                    None => {},
                }
            },
        }
        assert(r@ =~= before + boundaries(intervals@[i as int]));
        i = i + 1;
    }
    r
}

/// The message that installs a rule for one address family.
fn add_rule(rule: &RenderedRule, v6: bool, generation: u8) -> (r: Message)
    ensures
        r.step() == rule_step(*rule, v6, generation),
{
    let mut list: Vec<Expression> = Vec::new();
    match &rule.ingress {
        Some(name) => {
            list.push(Expression::MetaIngress);
            list.push(Expression::CompareInterface(name.clone()));
        },
        None => {},
    }
    assert(list@ =~= interface_test(Expression::MetaIngress, rule.ingress));
    match &rule.egress {
        Some(name) => {
            list.push(Expression::MetaEgress);
            list.push(Expression::CompareInterface(name.clone()));
        },
        None => {},
    }
    assert(list@ =~= interface_test(Expression::MetaIngress, rule.ingress) + interface_test(
        Expression::MetaEgress,
        rule.egress,
    ));
    list.push(Expression::MetaFamily);
    list.push(Expression::CompareFamily { v6 });
    list.push(Expression::Payload { v6, field: rule.address });
    list.push(Expression::Lookup(AddressSet { direction: rule.direction, v6, generation }));
    list.push(Expression::Drop);
    assert(list@ =~= expressions(*rule, v6, generation));
    Message::AddRule { chain: rule.chain, expressions: list }
}

/// A table name that the kernel cannot have.
pub open spec fn bad_table(config: Config) -> bool {
    crate::text::holds_nul(config.nftables.table@)
}

impl Transaction {
    /// The transaction performs these steps on the configured table.
    pub open spec fn performs(self, config: Config, wanted: Seq<Step>) -> bool {
        &&& self.table == config.nftables.table
        &&& self.page_bytes == config.nftables.batch_page_bytes
        &&& steps(self.messages@) == wanted
    }
}

fn transaction(config: &Config, messages: Vec<Message>) -> (r: Transaction)
    ensures
        r.performs(*config, steps(messages@)),
{
    Transaction {
        table: config.nftables.table.clone(),
        page_bytes: config.nftables.batch_page_bytes,
        messages,
    }
}

/// The transaction that sets the table up, without any list or rule.
pub fn setup_transaction(config: &Config) -> (r: Transaction)
    ensures
        r.performs(*config, setup_steps(config.nftables.priority)),
{
    let priority: i32 = config.nftables.priority;
    let mut messages: Vec<Message> = Vec::new();
    messages.push(Message::AddTable);
    messages.push(Message::AddMarker);
    messages.push(Message::AddChain { chain: Chain::Input, priority });
    messages.push(Message::AddChain { chain: Chain::Forward, priority });
    messages.push(Message::AddChain { chain: Chain::Output, priority });
    assert(steps(messages@) =~= setup_steps(priority));
    transaction(config, messages)
}

/// The transaction that creates the sets of a generation.
pub fn creation_transaction(config: &Config, direction: Direction, generation: u8) -> (r: Transaction)
    ensures
        r.performs(*config, creation_steps(direction, generation)),
{
    let mut messages: Vec<Message> = Vec::new();
    messages.push(Message::AddSet(AddressSet { direction, v6: false, generation }));
    messages.push(Message::AddSet(AddressSet { direction, v6: true, generation }));
    assert(steps(messages@) =~= creation_steps(direction, generation));
    transaction(config, messages)
}

/// The transaction that puts a part of the intervals into a set.
pub fn population_transaction(
    config: &Config,
    set: AddressSet,
    intervals: &Vec<AddressInterval>,
    from: usize,
    to: usize,
) -> (r: Transaction)
    requires
        from <= to <= intervals@.len(),
    ensures
        r.performs(
            *config,
            population_steps(set, intervals@.subrange(from as int, to as int)),
        ),
{
    let mut messages: Vec<Message> = Vec::new();
    messages.push(
        Message::AddElements { set, elements: boundary_elements_of(intervals, from, to) },
    );
    assert(steps(messages@) =~= population_steps(
        set,
        intervals@.subrange(from as int, to as int),
    ));
    transaction(config, messages)
}

/// The transaction that puts the rules into force on these generations, in place of all rules
/// before.
pub fn activation_transaction(
    config: &Config,
    rules: &Vec<RenderedRule>,
    active: Active,
) -> (r: Transaction)
    ensures
        r.performs(*config, activation_steps(rules@, active)),
{
    let mut messages: Vec<Message> = Vec::new();
    messages.push(Message::FlushChain(Chain::Input));
    messages.push(Message::FlushChain(Chain::Forward));
    messages.push(Message::FlushChain(Chain::Output));
    let ghost start = steps(messages@);
    let mut i: usize = 0;
    assert(rules@.take(0) =~= Seq::empty());
    assert(start + rule_steps(rules@.take(0), active) =~= start);
    while i < rules.len()
        invariant
            i <= rules@.len(),
            steps(messages@) == start + rule_steps(rules@.take(i as int), active),
        decreases rules@.len() - i,
    {
        let ghost before = messages@;
        match active.of(rules[i].direction) {
            Some(generation) => {
                messages.push(add_rule(&rules[i], false, generation));
                messages.push(add_rule(&rules[i], true, generation));
            },
            None => {},
        }
        proof {
            let now = rules@.take(i + 1);
            assert(now.drop_last() =~= rules@.take(i as int));
            assert(now.last() == rules@[i as int]);
            assert(steps(messages@) =~= steps(before) + forms_steps(rules@[i as int], active));
            assert(steps(messages@) =~= start + rule_steps(now, active));
        }
        i = i + 1;
    }
    assert(rules@.take(i as int) =~= rules@);
    assert(steps(messages@) =~= activation_steps(rules@, active));
    transaction(config, messages)
}

/// The transaction that deletes sets.
pub fn deletion_transaction(config: &Config, sets: &Vec<AddressSet>) -> (r: Transaction)
    ensures
        r.performs(*config, deletion_steps(sets@)),
{
    let mut messages: Vec<Message> = Vec::new();
    let mut i: usize = 0;
    while i < sets.len()
        invariant
            i <= sets@.len(),
            steps(messages@) =~= deletion_steps(sets@.take(i as int)),
        decreases sets@.len() - i,
    {
        let ghost before = messages@;
        messages.push(Message::DeleteSet(sets[i]));
        proof {
            assert(sets@.take(i + 1) =~= sets@.take(i as int).push(sets@[i as int]));
            assert(steps(messages@) =~= steps(before).push(Step::DeleteSet(sets@[i as int])));
            assert(deletion_steps(sets@.take(i + 1)) =~= deletion_steps(
                sets@.take(i as int),
            ).push(Step::DeleteSet(sets@[i as int])));
        }
        i = i + 1;
    }
    assert(sets@.take(i as int) =~= sets@);
    transaction(config, messages)
}

/// The transaction that removes the table. Refused, with nothing sent, where the table's name holds
/// a NUL byte.
pub fn removal_transaction(config: &Config) -> (r: Option<Transaction>)
    ensures
        match r {
            Some(removal) => !bad_table(*config) && removal.performs(
                *config,
                seq![Step::DeleteTable],
            ),
            None => bad_table(*config),
        },
{
    if has_nul(config.nftables.table.as_str()) {
        return None;
    }
    let mut messages: Vec<Message> = Vec::new();
    messages.push(Message::DeleteTable);
    assert(steps(messages@) =~= seq![Step::DeleteTable]);
    Some(transaction(config, messages))
}

/// Setting the table up begins with the table itself, marks its layout, and adds every base chain
/// once, each with the configured priority; nothing else is done.
pub proof fn law_setup_lays_out_the_whole_table(priority: i32, other: i32, chain: Chain, step: Step)
    ensures
        setup_steps(priority)[0] is AddTable,
        setup_steps(priority).contains(Step::AddMarker),
        setup_steps(priority).contains(Step::AddChain { chain, priority: other }) <==> other
            == priority,
        setup_steps(priority).contains(step) ==> step is AddTable || step is AddMarker || step
            is AddChain,
        setup_steps(priority).no_duplicates(),
{
    let all = setup_steps(priority);
    assert(all[1] is AddMarker);
    assert(all[2] == Step::AddChain { chain: Chain::Input, priority });
    assert(all[3] == Step::AddChain { chain: Chain::Forward, priority });
    assert(all[4] == Step::AddChain { chain: Chain::Output, priority });
}

/// Creating a generation adds the sets of that generation, one per family, and nothing else.
pub proof fn law_a_generation_is_created_whole(direction: Direction, generation: u8, set: AddressSet)
    ensures
        creation_steps(direction, generation).contains(Step::AddSet(set)) <==> set.direction
            == direction && set.generation == generation,
        creation_steps(direction, generation).len() == 2,
{
    let all = creation_steps(direction, generation);
    assert(all[0] == Step::AddSet(AddressSet { direction, v6: false, generation }));
    assert(all[1] == Step::AddSet(AddressSet { direction, v6: true, generation }));
    if set.direction == direction && set.generation == generation {
        if set.v6 {
            assert(all[1] == Step::AddSet(set));
        } else {
            assert(all[0] == Step::AddSet(set));
        }
    }
}

/// Deleting sets deletes exactly these, and nothing else.
pub proof fn law_exactly_the_given_sets_are_deleted(sets: Seq<AddressSet>, set: AddressSet, k: int)
    ensures
        deletion_steps(sets).contains(Step::DeleteSet(set)) <==> sets.contains(set),
        0 <= k < deletion_steps(sets).len() ==> deletion_steps(sets)[k] is DeleteSet,
        deletion_steps(sets).len() == sets.len(),
{
    let all = deletion_steps(sets);
    if all.contains(Step::DeleteSet(set)) {
        let i = choose|i: int| 0 <= i < all.len() && all[i] == Step::DeleteSet(set);
        assert(sets[i] == set);
    }
    if sets.contains(set) {
        let i = choose|i: int| 0 <= i < sets.len() && sets[i] == set;
        assert(all[i] == Step::DeleteSet(set));
    }
}

/// No part of a list ends early: with the next interval it would have more set elements than the
/// limit.
pub proof fn law_populations_are_full(
    intervals: Seq<AddressInterval>,
    from: int,
    to: int,
    limit: nat,
)
    requires
        0 <= from,
        is_cut(intervals, from, to, limit),
        to < intervals.len(),
    ensures
        all_boundaries(intervals.subrange(from, to)).len() + boundaries(intervals[to]).len()
            > limit,
{
    lemma_boundaries_push(intervals.subrange(from, to), intervals[to]);
    assert(intervals.subrange(from, to + 1) =~= intervals.subrange(from, to).push(intervals[to]));
}

/// An interval needs as many set elements as it has boundaries: its first address, and the one
/// behind its last unless the address space ends there.
pub proof fn law_boundaries_are_counted(interval: AddressInterval)
    ensures
        interval.span().boundaries() == boundaries(interval).len(),
        boundaries(interval)[0].value() == interval.span().first,
        !boundaries(interval)[0].ends(),
        boundaries(interval)[0].v6() == interval.span().v6,
        boundaries(interval).len() == 1 <==> interval.span().end == crate::address::space(
            interval.span().v6,
        ),
        boundaries(interval).len() == 2 ==> boundaries(interval)[1].value() == interval.span().end
            && boundaries(interval)[1].ends() && boundaries(interval)[1].v6()
            == interval.span().v6,
{
    lemma_boundary_count(interval);
    crate::address::lemma_space();
}

/// A transaction is for the configured table, in pages of the configured size, and its messages are
/// the steps one by one.
pub proof fn law_transactions_are_the_steps(
    transaction: Transaction,
    config: Config,
    wanted: Seq<Step>,
    k: int,
)
    requires
        transaction.performs(config, wanted),
    ensures
        transaction.table@ == config.nftables.table@,
        transaction.page_bytes == config.nftables.batch_page_bytes,
        transaction.messages@.len() == wanted.len(),
        0 <= k < wanted.len() ==> transaction.messages@[k].step() == wanted[k],
{
    assert(steps(transaction.messages@).len() == transaction.messages@.len());
    if 0 <= k < wanted.len() {
        assert(steps(transaction.messages@)[k] == transaction.messages@[k].step());
    }
}

/// A table is refused exactly where its name holds a NUL character.
pub proof fn law_only_nul_makes_a_table_bad(config: Config)
    ensures
        bad_table(config) <==> config.nftables.table@.contains('\0'),
{
    crate::text::law_nul_is_a_character(config.nftables.table@);
}

/// Putting one list into force leaves the generation of the other as it was.
pub proof fn law_generations_are_replaced_one_by_one(
    active: Active,
    direction: Direction,
    generation: u8,
    other: Direction,
)
    ensures
        active.replaced(direction, generation).generation(other) == (if other == direction {
            Some(generation)
        } else {
            active.generation(other)
        }),
        active.generation(Direction::Inbound) == active.inbound,
        active.generation(Direction::Outbound) == active.outbound,
{
}

} // verus!
