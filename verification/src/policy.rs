//! What the transactions do to packets.
use crate::address::AddressInterval;
use crate::address::AddressPrefix;
use crate::address::Span;
use crate::batch::Active;
use crate::batch::AddressSet;
use crate::batch::Element;
use crate::batch::Expression;
use crate::batch::Snapshot;
use crate::batch::Step;
use crate::blocklist::ParsedBlocklist;
use crate::config::Config;
use crate::config::Direction;
use crate::config::RuleMapping;
use crate::config::Rules;
use crate::rollout::Action;
use crate::rollout::Event;
use crate::rollout::Rollout;
use crate::rollout::Stage;
use crate::rules::AddressField;
use crate::rules::RenderedRule;
use crate::wire::SetInfo;
use crate::zones::Chain;
use crate::zones::ResolvedRule;
use crate::zones::Zone;
use vstd::prelude::*;

verus! {

/// A packet as the rules see it on a chain.
pub struct Packet {
    pub chain: Chain,
    pub ingress: Seq<char>,
    pub egress: Seq<char>,
    pub v6: bool,
    pub source: int,
    pub destination: int,
}

impl Packet {
    pub open spec fn address(self, field: AddressField) -> int {
        match field {
            AddressField::Source => self.source,
            AddressField::Destination => self.destination,
        }
    }

    pub open spec fn wf(self) -> bool {
        &&& 0 <= self.source < crate::address::space(self.v6)
        &&& 0 <= self.destination < crate::address::space(self.v6)
    }
}

/// What an expression has loaded for the next one.
pub enum Loaded {
    Nothing,
    Interface(Seq<char>),
    Family(bool),
    Address(int),
}

/// The address is in an interval set with these boundaries: it is not below the start of an
/// interval, and below every end behind that start.
pub open spec fn in_set(elements: Seq<Element>, v6: bool, address: int) -> bool {
    exists|start: Element| #[trigger]
        elements.contains(start) && start.v6() == v6 && !start.ends() && start.value() <= address
            && below_ends(elements, start, address)
}

pub open spec fn below_ends(elements: Seq<Element>, start: Element, address: int) -> bool {
    forall|end: Element| #[trigger]
        elements.contains(end) && end.v6() == start.v6() && end.ends() && start.value()
            < end.value() ==> address < end.value()
}

/// A rule with these expressions drops the packet.
pub open spec fn rule_drops(
    expressions: Seq<Expression>,
    packet: Packet,
    loaded: Loaded,
    sets: spec_fn(AddressSet) -> Seq<Element>,
) -> bool
    decreases expressions.len(),
{
    if expressions.len() == 0 {
        false
    } else {
        let rest = expressions.drop_first();
        match expressions[0] {
            Expression::MetaIngress => rule_drops(
                rest,
                packet,
                Loaded::Interface(packet.ingress),
                sets,
            ),
            Expression::MetaEgress => rule_drops(
                rest,
                packet,
                Loaded::Interface(packet.egress),
                sets,
            ),
            Expression::CompareInterface(name) => loaded == Loaded::Interface(name@) && rule_drops(
                rest,
                packet,
                loaded,
                sets,
            ),
            Expression::MetaFamily => rule_drops(rest, packet, Loaded::Family(packet.v6), sets),
            Expression::CompareFamily { v6 } => loaded == Loaded::Family(v6) && rule_drops(
                rest,
                packet,
                loaded,
                sets,
            ),
            Expression::Payload { v6, field } => rule_drops(
                rest,
                packet,
                if packet.v6 == v6 {
                    Loaded::Address(packet.address(field))
                } else {
                    Loaded::Nothing
                },
                sets,
            ),
            Expression::Lookup(set) => {
                &&& loaded matches Loaded::Address(address) && in_set(sets(set), set.v6, address)
                &&& rule_drops(rest, packet, loaded, sets)
            },
            Expression::Drop => true,
        }
    }
}

/// The boundaries in a set after these steps.
pub open spec fn content(steps: Seq<Step>, set: AddressSet) -> Seq<Element>
    decreases steps.len(),
{
    if steps.len() == 0 {
        Seq::empty()
    } else {
        let before = content(steps.drop_last(), set);
        match steps.last() {
            Step::DeleteTable => Seq::empty(),
            Step::AddElements { set: filled, elements } => if filled == set {
                before + elements
            } else {
                before
            },
            Step::DeleteSet(deleted) => if deleted == set {
                Seq::empty()
            } else {
                before
            },
            _ => before,
        }
    }
}

/// The rules of a chain after these steps, in order.
pub open spec fn installed(steps: Seq<Step>, chain: Chain) -> Seq<Seq<Expression>>
    decreases steps.len(),
{
    if steps.len() == 0 {
        Seq::empty()
    } else {
        let before = installed(steps.drop_last(), chain);
        match steps.last() {
            Step::DeleteTable => Seq::empty(),
            Step::FlushChain(flushed) => if flushed == chain {
                Seq::empty()
            } else {
                before
            },
            Step::AddRule { chain: extended, expressions } => if extended == chain {
                before.push(expressions)
            } else {
                before
            },
            _ => before,
        }
    }
}

/// The boundaries of every set after these steps.
pub open spec fn contents(steps: Seq<Step>) -> spec_fn(AddressSet) -> Seq<Element> {
    |set: AddressSet| content(steps, set)
}

/// The firewall drops the packet after these steps: a rule of its chain does.
pub open spec fn drops(steps: Seq<Step>, packet: Packet) -> bool {
    exists|rule: Seq<Expression>| #[trigger]
        installed(steps, packet.chain).contains(rule) && rule_drops(
            rule,
            packet,
            Loaded::Nothing,
            contents(steps),
        )
}

/// The rule has no interface on this side, or the packet's.
pub open spec fn side_matches(name: Option<String>, interface: Seq<char>) -> bool {
    name matches Some(name) ==> name@ == interface
}

/// The interfaces of the rule match, and the packet's address is one of the list's.
pub open spec fn rule_applies(rule: RenderedRule, packet: Packet, nets: Seq<AddressPrefix>) -> bool {
    &&& rule.chain == packet.chain
    &&& side_matches(rule.ingress, packet.ingress)
    &&& side_matches(rule.egress, packet.egress)
    &&& crate::layout::nets_contain(nets, packet.v6, packet.address(rule.address))
}

/// The entries of the list for a direction.
pub open spec fn entries(
    inbound: Seq<AddressPrefix>,
    outbound: Seq<AddressPrefix>,
    direction: Direction,
) -> Seq<AddressPrefix> {
    match direction {
        Direction::Inbound => inbound,
        Direction::Outbound => outbound,
    }
}

/// Some rule applies to the packet.
pub open spec fn listed(
    rules: Seq<RenderedRule>,
    packet: Packet,
    inbound: Seq<AddressPrefix>,
    outbound: Seq<AddressPrefix>,
) -> bool {
    exists|k: int|
        0 <= k < rules.len() && rule_applies(
            #[trigger] rules[k],
            packet,
            entries(inbound, outbound, rules[k].direction),
        )
}

/// Some rule whose list has a generation in force applies to the packet.
pub open spec fn listed_in(
    rules: Seq<RenderedRule>,
    active: Active,
    packet: Packet,
    inbound: Seq<AddressPrefix>,
    outbound: Seq<AddressPrefix>,
) -> bool {
    exists|k: int|
        0 <= k < rules.len() && rule_applies(
            #[trigger] rules[k],
            packet,
            entries(inbound, outbound, rules[k].direction),
        ) && active.generation(rules[k].direction) is Some
}

/// The expressions of a rule for a family drop a packet exactly where the packet is of that
/// family, its interfaces match, and its address is in the rule's set.
pub proof fn law_rule_drops(
    rule: RenderedRule,
    v6: bool,
    generation: u8,
    packet: Packet,
    sets: spec_fn(AddressSet) -> Seq<Element>,
)
    ensures
        rule_drops(crate::batch::expressions(rule, v6, generation), packet, Loaded::Nothing, sets) <==> {
            &&& packet.v6 == v6
            &&& side_matches(rule.ingress, packet.ingress)
            &&& side_matches(rule.egress, packet.egress)
            &&& in_set(
                sets(crate::batch::set_of(rule.direction, v6, generation)),
                v6,
                packet.address(rule.address),
            )
        },
{
    let tail = seq![
        Expression::MetaFamily,
        Expression::CompareFamily { v6 },
        Expression::Payload { v6, field: rule.address },
        Expression::Lookup(crate::batch::set_of(rule.direction, v6, generation)),
        Expression::Drop,
    ];
    let out = crate::batch::interface_test(Expression::MetaEgress, rule.egress);
    let all = crate::batch::expressions(rule, v6, generation);
    lemma_tail_drops(rule, v6, generation, packet, Loaded::Nothing, sets);
    lemma_tail_drops(rule, v6, generation, packet, Loaded::Interface(packet.ingress), sets);
    lemma_tail_drops(rule, v6, generation, packet, Loaded::Interface(packet.egress), sets);
    lemma_side_drops(Expression::MetaEgress, rule.egress, tail, packet, Loaded::Nothing, sets);
    lemma_side_drops(
        Expression::MetaEgress,
        rule.egress,
        tail,
        packet,
        Loaded::Interface(packet.ingress),
        sets,
    );
    lemma_side_drops(
        Expression::MetaIngress,
        rule.ingress,
        out + tail,
        packet,
        Loaded::Nothing,
        sets,
    );
    assert(all =~= crate::batch::interface_test(Expression::MetaIngress, rule.ingress) + (out
        + tail));
}

proof fn lemma_side_drops(
    load: Expression,
    name: Option<String>,
    rest: Seq<Expression>,
    packet: Packet,
    loaded: Loaded,
    sets: spec_fn(AddressSet) -> Seq<Element>,
)
    requires
        load is MetaIngress || load is MetaEgress,
    ensures
        ({
            let interface = if load is MetaIngress {
                packet.ingress
            } else {
                packet.egress
            };
            rule_drops(crate::batch::interface_test(load, name) + rest, packet, loaded, sets)
                <==> side_matches(name, interface) && rule_drops(
                rest,
                packet,
                if name is Some {
                    Loaded::Interface(interface)
                } else {
                    loaded
                },
                sets,
            )
        }),
{
    let all = crate::batch::interface_test(load, name) + rest;
    match name {
        None => {
            assert(all =~= rest);
        },
        Some(text) => {
            assert(all.drop_first()[0] == Expression::CompareInterface(text));
            assert(all.drop_first().drop_first() =~= rest);
            reveal_with_fuel(rule_drops, 3);
        },
    }
}

proof fn lemma_tail_drops(
    rule: RenderedRule,
    v6: bool,
    generation: u8,
    packet: Packet,
    loaded: Loaded,
    sets: spec_fn(AddressSet) -> Seq<Element>,
)
    ensures
        rule_drops(
            seq![
                Expression::MetaFamily,
                Expression::CompareFamily { v6 },
                Expression::Payload { v6, field: rule.address },
                Expression::Lookup(crate::batch::set_of(rule.direction, v6, generation)),
                Expression::Drop,
            ],
            packet,
            loaded,
            sets,
        ) <==> packet.v6 == v6 && in_set(
            sets(crate::batch::set_of(rule.direction, v6, generation)),
            v6,
            packet.address(rule.address),
        ),
{
    let set = crate::batch::set_of(rule.direction, v6, generation);
    let a = seq![
        Expression::MetaFamily,
        Expression::CompareFamily { v6 },
        Expression::Payload { v6, field: rule.address },
        Expression::Lookup(set),
        Expression::Drop,
    ];
    let b = a.drop_first();
    let c = b.drop_first();
    let d = c.drop_first();
    let e = d.drop_first();
    assert(b[0] == Expression::CompareFamily { v6 });
    assert(c[0] == Expression::Payload { v6, field: rule.address });
    assert(d[0] == Expression::Lookup(set));
    assert(e[0] == Expression::Drop);
    let address = packet.address(rule.address);
    assert(rule_drops(e, packet, Loaded::Address(address), sets));
    assert(rule_drops(d, packet, Loaded::Address(address), sets) <==> in_set(
        sets(set),
        v6,
        address,
    ));
    assert(!rule_drops(d, packet, Loaded::Nothing, sets));
    assert(rule_drops(c, packet, Loaded::Family(packet.v6), sets) <==> packet.v6 == v6 && in_set(
        sets(set),
        v6,
        address,
    ));
    assert(rule_drops(b, packet, Loaded::Family(packet.v6), sets) <==> packet.v6 == v6 && in_set(
        sets(set),
        v6,
        address,
    ));
}

proof fn lemma_boundaries_members(intervals: Seq<AddressInterval>, element: Element)
    ensures
        crate::batch::all_boundaries(intervals).contains(element) <==> exists|i: int|
            0 <= i < intervals.len() && crate::batch::boundaries(
                #[trigger] intervals[i],
            ).contains(element),
    decreases intervals.len(),
{
    if intervals.len() > 0 {
        let before = intervals.drop_last();
        let all = crate::batch::all_boundaries(intervals);
        let head = crate::batch::all_boundaries(before);
        let tail = crate::batch::boundaries(intervals.last());
        lemma_boundaries_members(before, element);
        if all.contains(element) {
            let k = choose|k: int| 0 <= k < all.len() && all[k] == element;
            if k < head.len() {
                assert(head[k] == element);
                let i = choose|i: int|
                    0 <= i < before.len() && crate::batch::boundaries(
                        #[trigger] before[i],
                    ).contains(element);
                assert(intervals[i] == before[i]);
            } else {
                assert(tail[k - head.len()] == element);
                assert(intervals[intervals.len() - 1] == intervals.last());
            }
        }
        if exists|i: int|
            0 <= i < intervals.len() && crate::batch::boundaries(
                #[trigger] intervals[i],
            ).contains(element) {
            let i = choose|i: int|
                0 <= i < intervals.len() && crate::batch::boundaries(
                    #[trigger] intervals[i],
                ).contains(element);
            if i < before.len() {
                assert(before[i] == intervals[i]);
                let k = choose|k: int| 0 <= k < head.len() && head[k] == element;
                assert(all[k] == element);
            } else {
                let k = choose|k: int| 0 <= k < tail.len() && tail[k] == element;
                assert(all[head.len() + k] == element);
            }
        }
    }
}

/// What the boundaries of one interval are.
proof fn lemma_interval_boundaries(interval: AddressInterval, element: Element)
    ensures
        ({
            let span = interval.span();
            let list = crate::batch::boundaries(interval);
            &&& list.contains(element) ==> element.v6() == span.v6 && element.value() == (
            if element.ends() {
                span.end
            } else {
                span.first
            })
            &&& list.contains(element) && element.ends() ==> span.end != crate::address::space(
                span.v6,
            )
            &&& list.len() > 0 && list.contains(list[0]) && !list[0].ends()
            &&& span.end != crate::address::space(span.v6) ==> list.len() == 2 && list.contains(
                list[1],
            ) && list[1].ends()
        }),
{
    crate::address::lemma_space();
}

/// The intervals of one family are in ascending order and do not touch.
spec fn apart(intervals: Seq<AddressInterval>, v6: bool) -> bool {
    &&& forall|i: int| 0 <= i < intervals.len() ==> (#[trigger] intervals[i]).span().v6 == v6
    &&& forall|i: int, j: int|
        0 <= i < j < intervals.len() ==> (#[trigger] intervals[i]).span().end < (
        #[trigger] intervals[j]).span().first
}

proof fn lemma_in_set(intervals: Seq<AddressInterval>, v6: bool, address: int)
    requires
        crate::blocklist::intervals_wf(intervals),
        apart(intervals, v6),
        0 <= address < crate::address::space(v6),
    ensures
        in_set(crate::batch::all_boundaries(intervals), v6, address)
            <==> crate::layout::spans_contain(
            crate::layout::interval_spans(intervals),
            v6,
            address,
        ),
{
    let all = crate::batch::all_boundaries(intervals);
    let spans = crate::layout::interval_spans(intervals);
    if in_set(all, v6, address) {
        let start = choose|start: Element| #[trigger]
            all.contains(start) && start.v6() == v6 && !start.ends() && start.value() <= address
                && below_ends(all, start, address);
        lemma_boundaries_members(intervals, start);
        let i = choose|i: int|
            0 <= i < intervals.len() && crate::batch::boundaries(
                #[trigger] intervals[i],
            ).contains(start);
        lemma_interval_boundaries(intervals[i], start);
        let span = intervals[i].span();
        assert(intervals[i].wf());
        if span.end != crate::address::space(v6) {
            let end = crate::batch::boundaries(intervals[i])[1];
            lemma_interval_boundaries(intervals[i], end);
            lemma_boundaries_members(intervals, end);
            assert(all.contains(end));
        }
        assert(spans[i].contains(v6, address));
    }
    if crate::layout::spans_contain(spans, v6, address) {
        let i = choose|i: int| 0 <= i < spans.len() && (#[trigger] spans[i]).contains(v6, address);
        let span = intervals[i].span();
        assert(intervals[i].wf());
        let start = crate::batch::boundaries(intervals[i])[0];
        lemma_interval_boundaries(intervals[i], start);
        lemma_boundaries_members(intervals, start);
        assert(all.contains(start));
        assert forall|end: Element| #[trigger]
            all.contains(end) && end.v6() == start.v6() && end.ends() && start.value()
                < end.value() implies address < end.value() by {
            lemma_boundaries_members(intervals, end);
            let j = choose|j: int|
                0 <= j < intervals.len() && crate::batch::boundaries(
                    #[trigger] intervals[j],
                ).contains(end);
            lemma_interval_boundaries(intervals[j], end);
            assert(intervals[j].wf());
            if j < i {
                assert(intervals[j].span().end < intervals[i].span().first);
            } else if j > i {
                assert(intervals[i].span().end < intervals[j].span().first);
            }
        }
        assert(below_ends(all, start, address));
    }
}

proof fn lemma_family_apart(spans: Seq<Span>, v6: bool)
    requires
        crate::layout::separated(spans),
    ensures
        forall|i: int|
            0 <= i < crate::layout::family(spans, v6).len() ==> (#[trigger] crate::layout::family(
                spans,
                v6,
            )[i]).v6 == v6 && spans.contains(crate::layout::family(spans, v6)[i]),
        forall|i: int, j: int|
            0 <= i < j < crate::layout::family(spans, v6).len() ==> (
            #[trigger] crate::layout::family(spans, v6)[i]).end < (#[trigger] crate::layout::family(
                spans,
                v6,
            )[j]).first,
    decreases spans.len(),
{
    if spans.len() > 0 {
        let before = spans.drop_last();
        let last = spans.last();
        assert(crate::layout::separated(before)) by {
            assert forall|i: int, j: int|
                0 <= i < j < before.len() && (#[trigger] before[i]).v6 implies (
            #[trigger] before[j]).v6 by {
                assert(spans[i].v6 ==> spans[j].v6);
            }
            assert forall|i: int, j: int|
                0 <= i < j < before.len() && (#[trigger] before[i]).v6 == (#[trigger] before[j]).v6
                implies before[i].end < before[j].first by {
                assert(spans[i].end < spans[j].first);
            }
        }
        lemma_family_apart(before, v6);
        let head = crate::layout::family(before, v6);
        let all = crate::layout::family(spans, v6);
        assert forall|i: int| 0 <= i < all.len() implies (#[trigger] all[i]).v6 == v6
            && spans.contains(all[i]) by {
            if i < head.len() {
                assert(before.contains(head[i]));
                let k = choose|k: int| 0 <= k < before.len() && before[k] == head[i];
                assert(spans[k] == all[i]);
            } else {
                assert(spans[spans.len() - 1] == all[i]);
            }
        }
        assert forall|i: int, j: int| 0 <= i < j < all.len() implies (#[trigger] all[i]).end < (
        #[trigger] all[j]).first by {
            if j < head.len() {
                assert(head[i].end < head[j].first);
            } else {
                assert(head[i].v6 == v6 && before.contains(head[i]));
                let k = choose|k: int| 0 <= k < before.len() && before[k] == head[i];
                assert(spans[k].v6 == spans[spans.len() - 1].v6);
                assert(spans[k].end < spans[spans.len() - 1].first);
            }
        }
    }
}

/// A set filled with the intervals of a list holds an address exactly where an entry of the list
/// does.
pub proof fn law_set_holds_entries(
    list: ParsedBlocklist,
    nets: Seq<AddressPrefix>,
    v6: bool,
    address: int,
)
    requires
        list.lists(nets),
        0 <= address < crate::address::space(v6),
    ensures
        in_set(crate::batch::all_boundaries(crate::batch::family_of(list, v6)), v6, address)
            <==> crate::layout::nets_contain(nets, v6, address),
{
    let spans = crate::layout::spans(nets);
    let intervals = crate::batch::family_of(list, v6);
    let part = crate::layout::family(spans, v6);
    assert(crate::layout::interval_spans(intervals) == part);
    crate::layout::law_spans_separated(nets);
    lemma_family_apart(spans, v6);
    assert(apart(intervals, v6)) by {
        assert forall|i: int| 0 <= i < intervals.len() implies (#[trigger] intervals[i]).span().v6
            == v6 by {
            assert(part[i] == intervals[i].span());
        }
        assert forall|i: int, j: int| 0 <= i < j < intervals.len() implies (
        #[trigger] intervals[i]).span().end < (#[trigger] intervals[j]).span().first by {
            assert(part[i] == intervals[i].span());
            assert(part[j] == intervals[j].span());
        }
    }
    lemma_in_set(intervals, v6, address);
    crate::layout::law_family_covers(spans, v6, address);
    crate::layout::law_spans_cover_entries(nets, v6, address);
}

/// A rule of some chain looks addresses up in the set.
pub open spec fn referenced(steps: Seq<Step>, set: AddressSet) -> bool {
    exists|chain: Chain, rule: Seq<Expression>| #[trigger]
        installed(steps, chain).contains(rule) && rule.contains(Expression::Lookup(set))
}

/// What a rule does depends on the sets that it looks addresses up in alone.
proof fn lemma_rule_depends(
    expressions: Seq<Expression>,
    packet: Packet,
    loaded: Loaded,
    a: spec_fn(AddressSet) -> Seq<Element>,
    b: spec_fn(AddressSet) -> Seq<Element>,
)
    requires
        forall|set: AddressSet| #[trigger]
            expressions.contains(Expression::Lookup(set)) ==> a(set) == b(set),
    ensures
        rule_drops(expressions, packet, loaded, a) == rule_drops(expressions, packet, loaded, b),
    decreases expressions.len(),
{
    if expressions.len() > 0 {
        let rest = expressions.drop_first();
        assert forall|set: AddressSet| #[trigger]
            rest.contains(Expression::Lookup(set)) implies a(set) == b(set) by {
            let k = choose|k: int| 0 <= k < rest.len() && rest[k] == Expression::Lookup(set);
            assert(expressions[k + 1] == Expression::Lookup(set));
            assert(expressions.contains(Expression::Lookup(set)));
        }
        match expressions[0] {
            Expression::MetaIngress => lemma_rule_depends(
                rest,
                packet,
                Loaded::Interface(packet.ingress),
                a,
                b,
            ),
            Expression::MetaEgress => lemma_rule_depends(
                rest,
                packet,
                Loaded::Interface(packet.egress),
                a,
                b,
            ),
            Expression::MetaFamily => lemma_rule_depends(
                rest,
                packet,
                Loaded::Family(packet.v6),
                a,
                b,
            ),
            Expression::Payload { v6, field } => lemma_rule_depends(
                rest,
                packet,
                if packet.v6 == v6 {
                    Loaded::Address(packet.address(field))
                } else {
                    Loaded::Nothing
                },
                a,
                b,
            ),
            Expression::Lookup(set) => {
                assert(expressions.contains(Expression::Lookup(set)));
                lemma_rule_depends(rest, packet, loaded, a, b);
            },
            _ => lemma_rule_depends(rest, packet, loaded, a, b),
        }
    }
}

/// The step sets the table up, or handles a set that no rule looks at.
pub open spec fn out_of_sight(history: Seq<Step>, step: Step) -> bool {
    match step {
        Step::AddTable | Step::AddMarker | Step::AddChain { .. } | Step::AddSet(_) => true,
        Step::AddElements { set, .. } => !referenced(history, set),
        Step::DeleteSet(set) => !referenced(history, set),
        _ => false,
    }
}

pub proof fn lemma_out_of_sight(history: Seq<Step>, more: Seq<Step>)
    requires
        forall|i: int| 0 <= i < more.len() ==> out_of_sight(history, #[trigger] more[i]),
    ensures
        forall|chain: Chain| #[trigger]
            installed(history + more, chain) == installed(history, chain),
        forall|set: AddressSet|
            referenced(history, set) ==> #[trigger] content(history + more, set) == content(
                history,
                set,
            ),
    decreases more.len(),
{
    if more.len() == 0 {
        assert(history + more =~= history);
    } else {
        let before = more.drop_last();
        assert forall|i: int| 0 <= i < before.len() implies out_of_sight(
            history,
            #[trigger] before[i],
        ) by {
            assert(before[i] == more[i]);
        }
        lemma_out_of_sight(history, before);
        assert(out_of_sight(history, more[more.len() - 1]));
        assert((history + more).drop_last() =~= history + before);
        assert((history + more).last() == more.last());
        assert forall|chain: Chain| #[trigger]
            installed(history + more, chain) == installed(history, chain) by {
            assert(installed(history + before, chain) == installed(history, chain));
        }
        assert forall|set: AddressSet| referenced(history, set) implies #[trigger] content(
            history + more,
            set,
        ) == content(history, set) by {
            assert(content(history + before, set) == content(history, set));
        }
    }
}

/// Setting the table up, and creating, filling or deleting sets that no rule looks at, changes
/// nothing for any packet.
pub proof fn law_unreferenced_sets_are_invisible(
    history: Seq<Step>,
    more: Seq<Step>,
    packet: Packet,
)
    requires
        forall|i: int| 0 <= i < more.len() ==> out_of_sight(history, #[trigger] more[i]),
    ensures
        drops(history + more, packet) == drops(history, packet),
        forall|set: AddressSet| #[trigger]
            referenced(history + more, set) == referenced(history, set),
{
    let all = history + more;
    lemma_out_of_sight(history, more);
    let list = installed(history, packet.chain);
    assert(installed(all, packet.chain) == list);
    assert forall|rule: Seq<Expression>| #[trigger] list.contains(rule) implies rule_drops(
        rule,
        packet,
        Loaded::Nothing,
        contents(all),
    ) == rule_drops(rule, packet, Loaded::Nothing, contents(history)) by {
        assert forall|set: AddressSet| #[trigger]
            rule.contains(Expression::Lookup(set)) implies contents(all)(set) == contents(history)(
            set,
        ) by {
            assert(installed(history, packet.chain).contains(rule));
            assert(referenced(history, set));
            assert(content(all, set) == content(history, set));
        }
        lemma_rule_depends(rule, packet, Loaded::Nothing, contents(all), contents(history));
    }
    if drops(all, packet) {
        let rule = choose|rule: Seq<Expression>| #[trigger]
            installed(all, packet.chain).contains(rule) && rule_drops(
                rule,
                packet,
                Loaded::Nothing,
                contents(all),
            );
        assert(list.contains(rule));
    }
    if drops(history, packet) {
        let rule = choose|rule: Seq<Expression>| #[trigger]
            list.contains(rule) && rule_drops(rule, packet, Loaded::Nothing, contents(history));
        assert(installed(all, packet.chain).contains(rule));
    }
    assert forall|set: AddressSet| #[trigger] referenced(all, set) == referenced(history, set) by {
        if referenced(all, set) {
            let (chain, rule) = choose|chain: Chain, rule: Seq<Expression>| #[trigger]
                installed(all, chain).contains(rule) && rule.contains(Expression::Lookup(set));
            assert(installed(history, chain).contains(rule));
        }
        if referenced(history, set) {
            let (chain, rule) = choose|chain: Chain, rule: Seq<Expression>| #[trigger]
                installed(history, chain).contains(rule) && rule.contains(Expression::Lookup(set));
            assert(installed(all, chain).contains(rule));
        }
    }
}

/// Steps that only change the rules leave the sets as they were.
proof fn lemma_rules_keep_sets(history: Seq<Step>, more: Seq<Step>, set: AddressSet)
    requires
        forall|i: int|
            0 <= i < more.len() ==> (#[trigger] more[i] is FlushChain || more[i] is AddRule),
    ensures
        content(history + more, set) == content(history, set),
    decreases more.len(),
{
    if more.len() == 0 {
        assert(history + more =~= history);
    } else {
        let before = more.drop_last();
        assert forall|i: int| 0 <= i < before.len() implies (#[trigger] before[i] is FlushChain
            || before[i] is AddRule) by {
            assert(before[i] == more[i]);
        }
        lemma_rules_keep_sets(history, before, set);
        assert((history + more).drop_last() =~= history + before);
        assert((history + more).last() == more[more.len() - 1]);
    }
}

/// The expressions are the form of the rule at a place for one family.
pub open spec fn form_at(
    rules: Seq<RenderedRule>,
    active: Active,
    chain: Chain,
    expressions: Seq<Expression>,
    k: int,
    v6: bool,
) -> bool {
    &&& 0 <= k < rules.len()
    &&& rules[k].chain == chain
    &&& active.generation(rules[k].direction) is Some
    &&& expressions == crate::batch::expressions(
        rules[k],
        v6,
        active.generation(rules[k].direction)->0,
    )
}

/// The expressions are a form of one of the rules.
pub open spec fn is_form(
    rules: Seq<RenderedRule>,
    active: Active,
    chain: Chain,
    expressions: Seq<Expression>,
) -> bool {
    exists|k: int, v6: bool| #[trigger] form_at(rules, active, chain, expressions, k, v6)
}

#[verifier::rlimit(30)]
proof fn lemma_rule_steps(
    start: Seq<Step>,
    rules: Seq<RenderedRule>,
    active: Active,
    chain: Chain,
    rule: Seq<Expression>,
)
    requires
        installed(start, chain).len() == 0,
    ensures
        installed(start + crate::batch::rule_steps(rules, active), chain).contains(rule)
            <==> is_form(rules, active, chain, rule),
        forall|i: int|
            0 <= i < crate::batch::rule_steps(rules, active).len() ==> (
            #[trigger] crate::batch::rule_steps(rules, active)[i]) is AddRule,
    decreases rules.len(),
{
    let more = crate::batch::rule_steps(rules, active);
    if rules.len() == 0 {
        assert(start + more =~= start);
        assert(!installed(start, chain).contains(rule));
    } else {
        let before = rules.drop_last();
        let last = rules.last();
        let n = rules.len() - 1;
        let head = crate::batch::rule_steps(before, active);
        let tail = crate::batch::forms_steps(last, active);
        lemma_rule_steps(start, before, active, chain, rule);
        let earlier = start + head;
        let list = installed(earlier, chain);
        let all = installed(start + more, chain);
        assert(start + more =~= earlier + tail);
        match active.generation(last.direction) {
            None => {
                assert(start + more =~= earlier);
                assert(all == list);
            },
            Some(generation) => {
                let one = crate::batch::expressions(last, false, generation);
                let two = crate::batch::expressions(last, true, generation);
                let middle = earlier.push(crate::batch::rule_step(last, false, generation));
                let whole = middle.push(crate::batch::rule_step(last, true, generation));
                assert(start + more =~= whole);
                assert(middle.drop_last() =~= earlier);
                assert(whole.drop_last() =~= middle);
                if last.chain == chain {
                    assert(installed(middle, chain) == list.push(one));
                    assert(all == list.push(one).push(two));
                    assert(form_at(rules, active, chain, one, n, false));
                    assert(form_at(rules, active, chain, two, n, true));
                    if all.contains(rule) {
                        let i = choose|i: int| 0 <= i < all.len() && all[i] == rule;
                        if i < list.len() {
                            assert(list[i] == rule);
                        }
                    }
                    if rule == one {
                        assert(all[list.len() as int] == rule);
                    }
                    if rule == two {
                        assert(all[list.len() as int + 1] == rule);
                    }
                    if list.contains(rule) {
                        let i = choose|i: int| 0 <= i < list.len() && list[i] == rule;
                        assert(all[i] == rule);
                    }
                } else {
                    assert(installed(middle, chain) == list);
                    assert(all == list);
                }
            },
        }
        if is_form(before, active, chain, rule) {
            let (k, v6) = choose|k: int, v6: bool| #[trigger]
                form_at(before, active, chain, rule, k, v6);
            assert(form_at(rules, active, chain, rule, k, v6));
        }
        if is_form(rules, active, chain, rule) {
            let (k, v6) = choose|k: int, v6: bool| #[trigger]
                form_at(rules, active, chain, rule, k, v6);
            if k < n {
                assert(form_at(before, active, chain, rule, k, v6));
            }
        }
        assert forall|i: int| 0 <= i < more.len() implies (#[trigger] more[i]) is AddRule by {
            if i < head.len() {
                assert(more[i] == head[i]);
            } else {
                assert(more[i] == tail[i - head.len()]);
            }
        }
    }
}

/// What activating the rules on some generations leaves behind: exactly these rules, and the sets
/// as they were.
pub proof fn lemma_activation(history: Seq<Step>, rules: Seq<RenderedRule>, active: Active)
    ensures
        forall|chain: Chain, rule: Seq<Expression>| #[trigger]
            installed(history + crate::batch::activation_steps(rules, active), chain).contains(
                rule,
            ) <==> is_form(rules, active, chain, rule),
        forall|set: AddressSet| #[trigger]
            content(history + crate::batch::activation_steps(rules, active), set) == content(
                history,
                set,
            ),
{
    let flushes = seq![
        Step::FlushChain(Chain::Input),
        Step::FlushChain(Chain::Forward),
        Step::FlushChain(Chain::Output),
    ];
    let more = crate::batch::activation_steps(rules, active);
    let base = history + flushes;
    let all = history + more;
    assert(all =~= base + crate::batch::rule_steps(rules, active));
    let b2 = base.drop_last();
    let b1 = b2.drop_last();
    assert(b1.drop_last() =~= history);
    assert(b1.last() == Step::FlushChain(Chain::Input));
    assert(b2.last() == Step::FlushChain(Chain::Forward));
    assert(base.last() == Step::FlushChain(Chain::Output));
    assert forall|chain: Chain| (#[trigger] installed(base, chain)).len() == 0 by {
        assert(installed(b1, Chain::Input).len() == 0);
        assert(installed(b2, Chain::Input).len() == 0);
        assert(installed(b2, Chain::Forward).len() == 0);
    }
    assert forall|chain: Chain, rule: Seq<Expression>| #[trigger]
        installed(all, chain).contains(rule) <==> is_form(rules, active, chain, rule) by {
        lemma_rule_steps(base, rules, active, chain, rule);
    }
    assert forall|set: AddressSet| #[trigger] content(all, set) == content(history, set) by {
        lemma_rule_steps(base, rules, active, Chain::Input, Seq::empty());
        assert forall|i: int| 0 <= i < more.len() implies (#[trigger] more[i] is FlushChain
            || more[i] is AddRule) by {
            if i >= 3 {
                assert(more[i] == crate::batch::rule_steps(rules, active)[i - 3]);
            }
        }
        lemma_rules_keep_sets(history, more, set);
    }
}

/// After an activation only the sets of the generations in force are looked at.
pub proof fn lemma_activation_references(
    history: Seq<Step>,
    rules: Seq<RenderedRule>,
    active: Active,
    set: AddressSet,
)
    ensures
        referenced(history + crate::batch::activation_steps(rules, active), set)
            ==> active.generation(set.direction) == Some(set.generation),
{
    let all = history + crate::batch::activation_steps(rules, active);
    lemma_activation(history, rules, active);
    if referenced(all, set) {
        let (chain, rule) = choose|chain: Chain, rule: Seq<Expression>| #[trigger]
            installed(all, chain).contains(rule) && rule.contains(Expression::Lookup(set));
        assert(is_form(rules, active, chain, rule));
        let (k, v6) = choose|k: int, v6: bool| #[trigger]
            form_at(rules, active, chain, rule, k, v6);
        let i = choose|i: int| 0 <= i < rule.len() && rule[i] == Expression::Lookup(set);
        assert(rule[i] is Lookup);
    }
}

/// The sets of a generation hold exactly the list.
pub open spec fn holds(
    history: Seq<Step>,
    direction: Direction,
    generation: u8,
    list: ParsedBlocklist,
) -> bool {
    forall|v6: bool|
        content(history, #[trigger] crate::batch::set_of(direction, v6, generation))
            == crate::batch::all_boundaries(crate::batch::family_of(list, v6))
}

/// The rules in the table are exactly the forms of these rules on the sets of some generations.
pub open spec fn enforces(history: Seq<Step>, rules: Seq<RenderedRule>, active: Active) -> bool {
    forall|chain: Chain, rule: Seq<Expression>| #[trigger]
        installed(history, chain).contains(rule) <==> is_form(rules, active, chain, rule)
}

/// Where the rules in the table are those of some generations that hold these lists, a packet is
/// dropped exactly where one of the rules applies to it.
pub proof fn lemma_enforced_rules_drop(
    history: Seq<Step>,
    rules: Seq<RenderedRule>,
    active: Active,
    snapshot: Snapshot,
    inbound: Seq<AddressPrefix>,
    outbound: Seq<AddressPrefix>,
    packet: Packet,
)
    requires
        enforces(history, rules, active),
        forall|direction: Direction|
            (#[trigger] active.generation(direction)) is Some ==> holds(
                history,
                direction,
                active.generation(direction)->0,
                snapshot.list(direction),
            ),
        snapshot.inbound.lists(inbound),
        snapshot.outbound.lists(outbound),
        packet.wf(),
    ensures
        drops(history, packet) <==> listed_in(rules, active, packet, inbound, outbound),
{
    assert forall|k: int, v6: bool|
        0 <= k < rules.len() && active.generation(rules[k].direction) is Some implies (
    #[trigger] rule_drops(
        crate::batch::expressions(rules[k], v6, active.generation(rules[k].direction)->0),
        packet,
        Loaded::Nothing,
        contents(history),
    )) == (packet.v6 == v6 && side_matches(rules[k].ingress, packet.ingress) && side_matches(
        rules[k].egress,
        packet.egress,
    ) && crate::layout::nets_contain(
        entries(inbound, outbound, rules[k].direction),
        packet.v6,
        packet.address(rules[k].address),
    )) by {
        let direction = rules[k].direction;
        let generation = active.generation(direction)->0;
        let set = crate::batch::set_of(direction, v6, generation);
        law_rule_drops(rules[k], v6, generation, packet, contents(history));
        assert(holds(history, direction, generation, snapshot.list(direction)));
        if packet.v6 == v6 {
            law_set_holds_entries(
                snapshot.list(direction),
                entries(inbound, outbound, direction),
                v6,
                packet.address(rules[k].address),
            );
        }
    }
    if drops(history, packet) {
        let rule = choose|rule: Seq<Expression>| #[trigger]
            installed(history, packet.chain).contains(rule) && rule_drops(
                rule,
                packet,
                Loaded::Nothing,
                contents(history),
            );
        assert(is_form(rules, active, packet.chain, rule));
        let (k, v6) = choose|k: int, v6: bool| #[trigger]
            form_at(rules, active, packet.chain, rule, k, v6);
        assert(rule_applies(
            rules[k],
            packet,
            entries(inbound, outbound, rules[k].direction),
        ));
    }
    if listed_in(rules, active, packet, inbound, outbound) {
        let k = choose|k: int|
            0 <= k < rules.len() && rule_applies(
                #[trigger] rules[k],
                packet,
                entries(inbound, outbound, rules[k].direction),
            ) && active.generation(rules[k].direction) is Some;
        let rule = crate::batch::expressions(
            rules[k],
            packet.v6,
            active.generation(rules[k].direction)->0,
        );
        assert(form_at(rules, active, packet.chain, rule, k, packet.v6));
        assert(is_form(rules, active, packet.chain, rule));
        assert(installed(history, packet.chain).contains(rule));
    }
}

/// Once the rules are put into force on generations that hold these lists, a packet is dropped
/// exactly where a rule for its chain matches its interfaces and the rule's list has its address:
/// no rule from before is left, and none is missing but those whose list has no generation yet.
pub proof fn law_activation_enforces_rules(
    history: Seq<Step>,
    rules: Seq<RenderedRule>,
    active: Active,
    snapshot: Snapshot,
    inbound: Seq<AddressPrefix>,
    outbound: Seq<AddressPrefix>,
    packet: Packet,
)
    requires
        forall|direction: Direction|
            (#[trigger] active.generation(direction)) is Some ==> holds(
                history,
                direction,
                active.generation(direction)->0,
                snapshot.list(direction),
            ),
        snapshot.inbound.lists(inbound),
        snapshot.outbound.lists(outbound),
        packet.wf(),
    ensures
        drops(history + crate::batch::activation_steps(rules, active), packet) <==> listed_in(
            rules,
            active,
            packet,
            inbound,
            outbound,
        ),
{
    let all = history + crate::batch::activation_steps(rules, active);
    lemma_activation(history, rules, active);
    assert(enforces(all, rules, active));
    assert forall|direction: Direction|
        (#[trigger] active.generation(direction)) is Some implies holds(
        all,
        direction,
        active.generation(direction)->0,
        snapshot.list(direction),
    ) by {
        let list = snapshot.list(direction);
        let generation = active.generation(direction)->0;
        assert forall|v6: bool|
            content(all, #[trigger] crate::batch::set_of(direction, v6, generation))
                == crate::batch::all_boundaries(crate::batch::family_of(list, v6)) by {
            let set = crate::batch::set_of(direction, v6, generation);
            assert(content(all, set) == content(history, set));
        }
    }
    lemma_enforced_rules_drop(all, rules, active, snapshot, inbound, outbound, packet);
}

/// The mapping has no interfaces on this side, or the packet's among them.
pub open spec fn zone_side(interfaces: Seq<String>, interface: Seq<char>) -> bool {
    interfaces.len() == 0 || crate::text::has_text(interfaces, interface)
}

/// The mapping covers the packet: its chain, one of its interfaces on each side, and an address of
/// its list.
pub open spec fn mapping_applies(
    mapping: ResolvedRule,
    packet: Packet,
    nets: Seq<AddressPrefix>,
) -> bool {
    &&& mapping.chain == packet.chain
    &&& zone_side(mapping.ingress@, packet.ingress)
    &&& zone_side(mapping.egress@, packet.egress)
    &&& crate::layout::nets_contain(
        nets,
        packet.v6,
        packet.address(crate::rules::address_field(mapping.blocklist)),
    )
}

proof fn lemma_alternative(interfaces: Seq<String>, interface: Seq<char>)
    ensures
        zone_side(interfaces, interface) <==> exists|i: int|
            0 <= i < crate::rules::alternatives(interfaces).len() && side_matches(
                #[trigger] crate::rules::alternatives(interfaces)[i],
                interface,
            ),
{
    let list = crate::rules::alternatives(interfaces);
    if zone_side(interfaces, interface) {
        if interfaces.len() == 0 {
            assert(side_matches(list[0], interface));
        } else {
            let i = choose|i: int|
                0 <= i < interfaces.len() && (#[trigger] interfaces[i])@ == interface;
            assert(side_matches(list[i], interface));
        }
    }
    if exists|i: int| 0 <= i < list.len() && side_matches(#[trigger] list[i], interface) {
        let i = choose|i: int| 0 <= i < list.len() && side_matches(#[trigger] list[i], interface);
        if interfaces.len() > 0 {
            assert(list[i] == Some(interfaces[i]));
            assert(interfaces[i]@ == interface);
        }
    }
}

proof fn lemma_expanded(mapping: ResolvedRule, packet: Packet, nets: Seq<AddressPrefix>)
    ensures
        mapping_applies(mapping, packet, nets) <==> exists|n: int|
            0 <= n < crate::rules::expanded(mapping).len() && rule_applies(
                #[trigger] crate::rules::expanded(mapping)[n],
                packet,
                nets,
            ),
        forall|n: int|
            0 <= n < crate::rules::expanded(mapping).len() ==> (#[trigger] crate::rules::expanded(
                mapping,
            )[n]).direction == mapping.blocklist,
{
    let all = crate::rules::expanded(mapping);
    let ins = crate::rules::alternatives(mapping.ingress@);
    let outs = crate::rules::alternatives(mapping.egress@);
    let m = outs.len() as int;
    lemma_alternative(mapping.ingress@, packet.ingress);
    lemma_alternative(mapping.egress@, packet.egress);
    crate::rules::law_mapping_is_cross_product(mapping, 0, 0);
    if mapping_applies(mapping, packet, nets) {
        let i = choose|i: int|
            0 <= i < ins.len() && side_matches(#[trigger] ins[i], packet.ingress);
        let j = choose|j: int|
            0 <= j < outs.len() && side_matches(#[trigger] outs[j], packet.egress);
        crate::rules::law_mapping_is_cross_product(mapping, i, j);
        assert(rule_applies(all[i * m + j], packet, nets));
    }
    assert forall|n: int| 0 <= n < all.len() implies (#[trigger] all[n]).direction
        == mapping.blocklist && (rule_applies(all[n], packet, nets) ==> mapping_applies(
        mapping,
        packet,
        nets,
    )) by {
        let (i, j) = (n / m, n % m);
        vstd::arithmetic::div_mod::lemma_fundamental_div_mod(n, m);
        assert(n == i * m + j) by (nonlinear_arith)
            requires
                n == m * i + j,
        ;
        assert(0 <= i < ins.len()) by (nonlinear_arith)
            requires
                n == i * m + j,
                0 <= n < ins.len() * m,
                0 <= j < m,
        ;
        crate::rules::law_mapping_is_cross_product(mapping, i, j);
        if rule_applies(all[n], packet, nets) {
            assert(side_matches(ins[i], packet.ingress));
            assert(side_matches(outs[j], packet.egress));
        }
    }
}

/// The rendered rules cover a packet exactly where one of the mappings does: interfaces of a zone
/// are alternatives, the two sides of a mapping must both match.
pub proof fn law_rules_cover_mappings(
    mappings: Seq<ResolvedRule>,
    packet: Packet,
    inbound: Seq<AddressPrefix>,
    outbound: Seq<AddressPrefix>,
)
    ensures
        listed(crate::rules::rendered(mappings), packet, inbound, outbound) <==> exists|k: int|
            0 <= k < mappings.len() && mapping_applies(
                #[trigger] mappings[k],
                packet,
                entries(inbound, outbound, mappings[k].blocklist),
            ),
    decreases mappings.len(),
{
    if mappings.len() > 0 {
        let before = mappings.drop_last();
        let last = mappings.last();
        let all = crate::rules::rendered(mappings);
        let head = crate::rules::rendered(before);
        let tail = crate::rules::expanded(last);
        let nets = entries(inbound, outbound, last.blocklist);
        law_rules_cover_mappings(before, packet, inbound, outbound);
        lemma_expanded(last, packet, nets);
        if listed(all, packet, inbound, outbound) {
            let n = choose|n: int|
                0 <= n < all.len() && rule_applies(
                    #[trigger] all[n],
                    packet,
                    entries(inbound, outbound, all[n].direction),
                );
            if n < head.len() {
                assert(rule_applies(
                    head[n],
                    packet,
                    entries(inbound, outbound, head[n].direction),
                ));
                let k = choose|k: int|
                    0 <= k < before.len() && mapping_applies(
                        #[trigger] before[k],
                        packet,
                        entries(inbound, outbound, before[k].blocklist),
                    );
                assert(mappings[k] == before[k]);
            } else {
                assert(tail[n - head.len()] == all[n]);
                assert(mappings[mappings.len() - 1] == last);
            }
        }
        if exists|k: int|
            0 <= k < mappings.len() && mapping_applies(
                #[trigger] mappings[k],
                packet,
                entries(inbound, outbound, mappings[k].blocklist),
            ) {
            let k = choose|k: int|
                0 <= k < mappings.len() && mapping_applies(
                    #[trigger] mappings[k],
                    packet,
                    entries(inbound, outbound, mappings[k].blocklist),
                );
            if k < before.len() {
                assert(before[k] == mappings[k]);
                let n = choose|n: int|
                    0 <= n < head.len() && rule_applies(
                        #[trigger] head[n],
                        packet,
                        entries(inbound, outbound, head[n].direction),
                    );
                assert(all[n] == head[n]);
            } else {
                let n = choose|n: int|
                    0 <= n < tail.len() && rule_applies(#[trigger] tail[n], packet, nets);
                assert(all[head.len() + n] == tail[n]);
            }
        }
    }
}

/// The zones on this side have no interface at all, or the packet's among them.
pub open spec fn zones_side(zones: Seq<Zone>, names: Seq<String>, interface: Seq<char>) -> bool {
    (forall|t: Seq<char>| !#[trigger] crate::zones::in_zones(zones, names, t))
        || crate::zones::in_zones(zones, names, interface)
}

/// The configured mapping covers the packet: its chain, the zones on each side, and an address of
/// its list.
pub open spec fn configured_applies(
    zones: Seq<Zone>,
    chain: Chain,
    mapping: RuleMapping,
    packet: Packet,
    nets: Seq<AddressPrefix>,
) -> bool {
    &&& chain == packet.chain
    &&& zones_side(zones, mapping.ingress_zones@, packet.ingress)
    &&& zones_side(zones, mapping.egress_zones@, packet.egress)
    &&& crate::layout::nets_contain(
        nets,
        packet.v6,
        packet.address(crate::rules::address_field(mapping.blocklist)),
    )
}

proof fn lemma_zones_side(
    zones: Seq<Zone>,
    names: Seq<String>,
    interfaces: Seq<String>,
    interface: Seq<char>,
)
    requires
        crate::zones::expands(zones, names, interfaces),
    ensures
        zones_side(zones, names, interface) == zone_side(interfaces, interface),
{
    if interfaces.len() > 0 {
        let first = interfaces[0]@;
        assert(crate::text::has_text(interfaces, first));
        assert(crate::zones::in_zones(zones, names, first));
        assert(crate::text::has_text(interfaces, interface) <==> crate::zones::in_zones(
            zones,
            names,
            interface,
        ));
    } else {
        assert forall|t: Seq<char>| !#[trigger] crate::zones::in_zones(zones, names, t) by {
            assert(!crate::text::has_text(interfaces, t));
        }
    }
}

/// Every list that a rule names has a generation in force.
pub open spec fn all_active(rules: Seq<RenderedRule>, active: Active) -> bool {
    forall|k: int|
        0 <= k < rules.len() ==> active.generation((#[trigger] rules[k]).direction) is Some
}

/// The rules of a configuration apply to a packet exactly where one of its mappings covers it.
pub proof fn lemma_listed_is_configured(
    rules: Rules,
    zones: Seq<Zone>,
    resolved: Seq<ResolvedRule>,
    inbound: Seq<AddressPrefix>,
    outbound: Seq<AddressPrefix>,
    packet: Packet,
)
    requires
        crate::zones::all_resolve(zones, crate::zones::mappings(rules), resolved),
    ensures
        listed(crate::rules::rendered(resolved), packet, inbound, outbound) <==> exists|k: int|
            0 <= k < crate::zones::mappings(rules).len() && configured_applies(
                zones,
                (#[trigger] crate::zones::mappings(rules)[k]).0,
                crate::zones::mappings(rules)[k].1,
                packet,
                entries(inbound, outbound, crate::zones::mappings(rules)[k].1.blocklist),
            ),
{
    let all = crate::zones::mappings(rules);
    law_rules_cover_mappings(resolved, packet, inbound, outbound);
    assert forall|k: int|
        #![trigger resolved[k]]
        #![trigger all[k]]
        0 <= k < all.len() implies configured_applies(
        zones,
        all[k].0,
        all[k].1,
        packet,
        entries(inbound, outbound, all[k].1.blocklist),
    ) == mapping_applies(
        resolved[k],
        packet,
        entries(inbound, outbound, resolved[k].blocklist),
    ) by {
        assert(crate::zones::resolves(zones, all[k].0, all[k].1, resolved[k]));
        lemma_zones_side(
            zones,
            all[k].1.ingress_zones@,
            resolved[k].ingress@,
            packet.ingress,
        );
        lemma_zones_side(zones, all[k].1.egress_zones@, resolved[k].egress@, packet.egress);
    }
    if exists|k: int|
        0 <= k < resolved.len() && mapping_applies(
            #[trigger] resolved[k],
            packet,
            entries(inbound, outbound, resolved[k].blocklist),
        ) {
        let k = choose|k: int|
            0 <= k < resolved.len() && mapping_applies(
                #[trigger] resolved[k],
                packet,
                entries(inbound, outbound, resolved[k].blocklist),
            );
        assert(configured_applies(
            zones,
            all[k].0,
            all[k].1,
            packet,
            entries(inbound, outbound, all[k].1.blocklist),
        ));
    }
}

/// Once the rules of a configuration are in force on generations that hold its lists, a packet is
/// dropped exactly where a configured mapping covers it.
pub proof fn law_configuration_is_enforced(
    history: Seq<Step>,
    config: Config,
    zones: Seq<Zone>,
    resolved: Seq<ResolvedRule>,
    active: Active,
    snapshot: Snapshot,
    inbound: Seq<AddressPrefix>,
    outbound: Seq<AddressPrefix>,
    packet: Packet,
)
    requires
        crate::zones::all_resolve(zones, crate::zones::mappings(config.rules), resolved),
        all_active(crate::rules::rendered(resolved), active),
        forall|direction: Direction|
            (#[trigger] active.generation(direction)) is Some ==> holds(
                history,
                direction,
                active.generation(direction)->0,
                snapshot.list(direction),
            ),
        snapshot.inbound.lists(inbound),
        snapshot.outbound.lists(outbound),
        packet.wf(),
    ensures
        drops(
            history + crate::batch::activation_steps(crate::rules::rendered(resolved), active),
            packet,
        ) <==> exists|k: int|
            0 <= k < crate::zones::mappings(config.rules).len() && configured_applies(
                zones,
                (#[trigger] crate::zones::mappings(config.rules)[k]).0,
                crate::zones::mappings(config.rules)[k].1,
                packet,
                entries(
                    inbound,
                    outbound,
                    crate::zones::mappings(config.rules)[k].1.blocklist,
                ),
            ),
{
    let rules = crate::rules::rendered(resolved);
    law_activation_enforces_rules(history, rules, active, snapshot, inbound, outbound, packet);
    assert(listed_in(rules, active, packet, inbound, outbound) == listed(
        rules,
        packet,
        inbound,
        outbound,
    )) by {
        if listed(rules, packet, inbound, outbound) {
            let k = choose|k: int|
                0 <= k < rules.len() && rule_applies(
                    #[trigger] rules[k],
                    packet,
                    entries(inbound, outbound, rules[k].direction),
                );
            assert(active.generation(rules[k].direction) is Some);
        }
    }
    lemma_listed_is_configured(config.rules, zones, resolved, inbound, outbound, packet);
}

/// The new sets of a rollout hold the list as far as it was put into them, and no rule looks at
/// them.
pub open spec fn staged(
    history: Seq<Step>,
    rollout: Rollout,
    list: ParsedBlocklist,
    ipv4: int,
    ipv6: int,
) -> bool {
    &&& content(history, rollout.set(false)) == crate::batch::all_boundaries(list.ipv4@.take(ipv4))
    &&& content(history, rollout.set(true)) == crate::batch::all_boundaries(list.ipv6@.take(ipv6))
    &&& !referenced(history, rollout.set(false))
    &&& !referenced(history, rollout.set(true))
}

/// The sets are of the direction that is being replaced, but not of the new generation.
pub open spec fn earlier_sets(rollout: Rollout) -> bool {
    forall|i: int|
        0 <= i < rollout.stale@.len() ==> (#[trigger] rollout.stale@[i]).direction
            == rollout.direction && rollout.stale@[i].generation != rollout.generation
}

/// The table is as a rollout takes it to be.
pub open spec fn in_step(rollout: Rollout, history: Seq<Step>, snapshot: Snapshot) -> bool {
    let list = snapshot.list(rollout.direction);
    match rollout.stage {
        Stage::Creating => staged(history, rollout, list, 0, 0),
        Stage::Populating { v6, from, to } => {
            &&& from <= to <= crate::batch::family_of(list, v6).len()
            &&& if v6 {
                staged(history, rollout, list, list.ipv4@.len() as int, from as int)
            } else {
                staged(history, rollout, list, from as int, 0)
            }
        },
        Stage::Checking => staged(
            history,
            rollout,
            list,
            list.ipv4@.len() as int,
            list.ipv6@.len() as int,
        ),
        Stage::Activating => {
            &&& staged(
                history,
                rollout,
                list,
                list.ipv4@.len() as int,
                list.ipv6@.len() as int,
            )
            &&& earlier_sets(rollout)
        },
        Stage::CleaningUp => {
            &&& earlier_sets(rollout)
            &&& forall|i: int|
                0 <= i < rollout.stale@.len() ==> !referenced(
                    history,
                    #[trigger] rollout.stale@[i],
                )
        },
        Stage::Discarding => !referenced(history, rollout.set(false)) && !referenced(
            history,
            rollout.set(true),
        ),
        _ => true,
    }
}

/// The listing is true of the table: a set that is not listed holds nothing, and no rule looks at
/// it.
pub open spec fn reported(history: Seq<Step>, table: Seq<char>, sets: Seq<SetInfo>) -> bool {
    forall|set: AddressSet|
        #![trigger content(history, set)]
        #![trigger referenced(history, set)]
        !crate::netlink::has_set(sets, table, set.text()) ==> content(history, set).len() == 0
            && !referenced(history, set)
}

/// The table once an event has come: a transaction that went through has taken effect, and one that
/// was refused has not.
pub open spec fn after_event(
    history: Seq<Step>,
    rollout: Rollout,
    event: Event,
    config: Config,
    rules: Seq<RenderedRule>,
    snapshot: Snapshot,
) -> Seq<Step> {
    if event is Accepted {
        history + crate::rollout::pending(rollout, config, rules, snapshot)
    } else {
        history
    }
}

/// Steps on other sets, and steps that add a set, leave a set as it was.
pub proof fn lemma_content_kept(history: Seq<Step>, more: Seq<Step>, set: AddressSet)
    requires
        forall|i: int|
            0 <= i < more.len() ==> match #[trigger] more[i] {
                Step::DeleteTable => false,
                Step::AddElements { set: other, .. } => other != set,
                Step::DeleteSet(other) => other != set,
                _ => true,
            },
    ensures
        content(history + more, set) == content(history, set),
    decreases more.len(),
{
    if more.len() == 0 {
        assert(history + more =~= history);
    } else {
        let before = more.drop_last();
        assert forall|i: int| 0 <= i < before.len() implies match #[trigger] before[i] {
            Step::DeleteTable => false,
            Step::AddElements { set: other, .. } => other != set,
            Step::DeleteSet(other) => other != set,
            _ => true,
        } by {
            assert(before[i] == more[i]);
        }
        lemma_content_kept(history, before, set);
        assert((history + more).drop_last() =~= history + before);
        assert((history + more).last() == more[more.len() - 1]);
    }
}

/// Before the activation, and when cleaning up, the transaction of a stage is out of sight.
pub proof fn lemma_pending_out_of_sight(
    rollout: Rollout,
    history: Seq<Step>,
    config: Config,
    rules: Seq<RenderedRule>,
    snapshot: Snapshot,
)
    requires
        in_step(rollout, history, snapshot),
        !(rollout.stage is Activating),
    ensures
        forall|i: int|
            0 <= i < crate::rollout::pending(rollout, config, rules, snapshot).len()
                ==> out_of_sight(
                history,
                #[trigger] crate::rollout::pending(rollout, config, rules, snapshot)[i],
            ),
{
    let more = crate::rollout::pending(rollout, config, rules, snapshot);
    assert forall|i: int| 0 <= i < more.len() implies out_of_sight(
        history,
        #[trigger] more[i],
    ) by {
        match rollout.stage {
            Stage::CleaningUp => {
                assert(more[i] == Step::DeleteSet(rollout.stale@[i]));
            },
            Stage::Discarding => {
                assert(more[i] == Step::DeleteSet(rollout.set(i == 1)));
            },
            _ => {},
        }
    }
}

/// The transaction of a stage leaves the sets of the other direction as they are.
pub proof fn lemma_pending_sets(
    rollout: Rollout,
    history: Seq<Step>,
    config: Config,
    rules: Seq<RenderedRule>,
    snapshot: Snapshot,
    set: AddressSet,
)
    requires
        in_step(rollout, history, snapshot),
        !(rollout.stage is Activating),
        set.direction != rollout.direction,
    ensures
        content(history + crate::rollout::pending(rollout, config, rules, snapshot), set)
            == content(history, set),
{
    let more = crate::rollout::pending(rollout, config, rules, snapshot);
    assert forall|i: int| 0 <= i < more.len() implies match #[trigger] more[i] {
        Step::DeleteTable => false,
        Step::AddElements { set: other, .. } => other != set,
        Step::DeleteSet(other) => other != set,
        _ => true,
    } by {
        match rollout.stage {
            Stage::CleaningUp => {
                assert(more[i] == Step::DeleteSet(rollout.stale@[i]));
            },
            Stage::Discarding => {
                assert(more[i] == Step::DeleteSet(rollout.set(i == 1)));
            },
            _ => {},
        }
    }
    lemma_content_kept(history, more, set);
}

/// A population extends what its set holds by its part of the list.
proof fn lemma_populated(
    rollout: Rollout,
    history: Seq<Step>,
    config: Config,
    rules: Seq<RenderedRule>,
    snapshot: Snapshot,
)
    requires
        in_step(rollout, history, snapshot),
        rollout.stage is Populating,
    ensures
        rollout.stage matches Stage::Populating { v6, from, to } ==> {
            let now = history + crate::rollout::pending(rollout, config, rules, snapshot);
            let family = crate::batch::family_of(snapshot.list(rollout.direction), v6);
            &&& content(now, rollout.set(v6)) == crate::batch::all_boundaries(
                family.take(to as int),
            )
            &&& content(now, rollout.set(!v6)) == content(history, rollout.set(!v6))
        },
{
    match rollout.stage {
        Stage::Populating { v6, from, to } => {
            let more = crate::rollout::pending(rollout, config, rules, snapshot);
            let now = history + more;
            let family = crate::batch::family_of(snapshot.list(rollout.direction), v6);
            let part = family.subrange(from as int, to as int);
            assert(now.drop_last() =~= history);
            assert(now.last() == more[0]);
            crate::batch::lemma_boundaries_append(family.take(from as int), part);
            assert(family.take(from as int) + part =~= family.take(to as int));
            assert(rollout.set(!v6) != rollout.set(v6));
        },
        _ => {},
    }
}

/// With the list in the new sets as far as a place, the table is in step with what comes next.
proof fn lemma_staged_next(
    before: Rollout,
    after: Rollout,
    now: Seq<Step>,
    snapshot: Snapshot,
    v6: bool,
    from: int,
    limit: nat,
)
    requires
        ({
            let list = snapshot.list(before.direction);
            &&& 0 <= from <= crate::batch::family_of(list, v6).len()
            &&& after == (Rollout { stage: after.stage, ..before })
            &&& crate::rollout::is_next(after.stage, list, v6, from, limit)
            &&& if v6 {
                staged(now, before, list, list.ipv4@.len() as int, from)
            } else {
                staged(now, before, list, from, 0)
            }
        }),
    ensures
        in_step(after, now, snapshot),
{
    assert(after.set(false) == before.set(false));
    assert(after.set(true) == before.set(true));
}

/// What is not a transaction leaves the table as it is, and in step.
proof fn lemma_quiet_in_step(
    before: Rollout,
    event: Event,
    after: Rollout,
    history: Seq<Step>,
    config: Config,
    snapshot: Snapshot,
)
    requires
        in_step(before, history, snapshot),
        !(event is Accepted),
        crate::rollout::follows(before.stage, event),
        crate::rollout::stepped(before, event, after, config, snapshot),
        event matches Event::Inspected { sets, .. } ==> reported(
            history,
            config.nftables.table@,
            sets@,
        ),
    ensures
        in_step(after, history, snapshot),
{
    let list = snapshot.list(before.direction);
    match before.stage {
        Stage::Inspecting => {
            if after.stage == Stage::Creating {
                let (v4, v6) = (after.set(false), after.set(true));
                let new = snapshot.list(after.direction);
                assert(content(history, v4).len() == 0 && !referenced(history, v4));
                assert(content(history, v6).len() == 0 && !referenced(history, v6));
                assert(new.ipv4@.take(0) =~= Seq::empty());
                assert(new.ipv6@.take(0) =~= Seq::empty());
                assert(content(history, v4) =~= Seq::empty());
                assert(content(history, v6) =~= Seq::empty());
            }
        },
        Stage::Checking => {
            if after.stage == Stage::Activating {
                assert(earlier_sets(after)) by {
                    assert forall|i: int| 0 <= i < after.stale@.len() implies (
                    #[trigger] after.stale@[i]).direction == after.direction
                        && after.stale@[i].generation != after.generation by {
                        assert(after.stale@.contains(after.stale@[i]));
                    }
                }
                assert(after.set(false) == before.set(false));
                assert(after.set(true) == before.set(true));
            }
        },
        _ => {},
    }
}

/// Until the rules are pointed at the new sets, nothing that a rollout does changes what happens to
/// any packet, and the sets of the other direction stay as they are. Whatever makes the request
/// fail before, the lists in force stay in force. The same holds of deleting the sets of earlier
/// generations. Throughout, the table is as the rollout takes it to be.
pub proof fn law_staging_is_invisible(
    before: Rollout,
    event: Event,
    after: Rollout,
    history: Seq<Step>,
    config: Config,
    rules: Seq<RenderedRule>,
    snapshot: Snapshot,
    packet: Packet,
)
    requires
        in_step(before, history, snapshot),
        crate::rollout::follows(before.stage, event),
        crate::rollout::stepped(before, event, after, config, snapshot),
        !(before.stage is Activating && event is Accepted),
        event matches Event::Inspected { sets, .. } ==> reported(
            history,
            config.nftables.table@,
            sets@,
        ),
    ensures
        ({
            let now = after_event(history, before, event, config, rules, snapshot);
            &&& drops(now, packet) == drops(history, packet)
            &&& in_step(after, now, snapshot)
            &&& forall|set: AddressSet|
                set.direction != before.direction ==> #[trigger] content(now, set) == content(
                    history,
                    set,
                )
        }),
{
    let more = crate::rollout::pending(before, config, rules, snapshot);
    let now = after_event(history, before, event, config, rules, snapshot);
    if event is Accepted {
        lemma_pending_out_of_sight(before, history, config, rules, snapshot);
        law_unreferenced_sets_are_invisible(history, more, packet);
        assert forall|set: AddressSet| set.direction != before.direction implies #[trigger] content(
            now,
            set,
        ) == content(history, set) by {
            lemma_pending_sets(before, history, config, rules, snapshot, set);
        }
        match before.stage {
            Stage::Creating => {
                lemma_content_kept(history, more, before.set(false));
                lemma_content_kept(history, more, before.set(true));
            },
            Stage::Populating { v6, from, to } => {
                lemma_populated(before, history, config, rules, snapshot);
            },
            _ => {},
        }
        assert(in_step(after, now, snapshot)) by {
            let list = snapshot.list(before.direction);
            let limit = config.nftables.populate_batch_elements as nat;
            match before.stage {
                Stage::Creating => lemma_staged_next(
                    before,
                    after,
                    now,
                    snapshot,
                    false,
                    0,
                    limit,
                ),
                Stage::Populating { v6, from, to } => lemma_staged_next(
                    before,
                    after,
                    now,
                    snapshot,
                    v6,
                    to as int,
                    limit,
                ),
                _ => {},
            }
        }
    } else {
        lemma_quiet_in_step(before, event, after, history, config, snapshot);
    }
}

/// The other list.
pub open spec fn other(direction: Direction) -> Direction {
    match direction {
        Direction::Inbound => Direction::Outbound,
        Direction::Outbound => Direction::Inbound,
    }
}

/// The transaction that points the rules at the new sets leaves exactly the rules on the generations
/// in force, and the new sets with the whole list in them. The sets that go afterwards are no longer
/// looked at.
pub proof fn lemma_activated(
    before: Rollout,
    after: Rollout,
    history: Seq<Step>,
    config: Config,
    rules: Seq<RenderedRule>,
    snapshot: Snapshot,
)
    requires
        before.stage == Stage::Activating,
        in_step(before, history, snapshot),
        crate::rollout::stepped(before, Event::Accepted, after, config, snapshot),
    ensures
        ({
            let now = after_event(history, before, Event::Accepted, config, rules, snapshot);
            let list = snapshot.list(before.direction);
            &&& enforces(
                now,
                rules,
                before.active.replaced(before.direction, before.generation),
            )
            &&& forall|set: AddressSet| #[trigger] content(now, set) == content(history, set)
            &&& in_step(after, now, snapshot)
            &&& holds(history, before.direction, before.generation, list)
            &&& holds(now, before.direction, before.generation, list)
        }),
{
    let active = before.active.replaced(before.direction, before.generation);
    let now = after_event(history, before, Event::Accepted, config, rules, snapshot);
    let list = snapshot.list(before.direction);
    assert(holds(history, before.direction, before.generation, list)) by {
        assert forall|v6: bool|
            content(
                history,
                #[trigger] crate::batch::set_of(before.direction, v6, before.generation),
            ) == crate::batch::all_boundaries(crate::batch::family_of(list, v6)) by {
            assert(before.set(v6) == crate::batch::set_of(
                before.direction,
                v6,
                before.generation,
            ));
            let family = crate::batch::family_of(list, v6);
            assert(family.take(family.len() as int) =~= family);
        }
    }
    lemma_activation(history, rules, active);
    assert(holds(now, before.direction, before.generation, list)) by {
        assert forall|v6: bool|
            content(
                now,
                #[trigger] crate::batch::set_of(before.direction, v6, before.generation),
            ) == crate::batch::all_boundaries(crate::batch::family_of(list, v6)) by {
            let set = crate::batch::set_of(before.direction, v6, before.generation);
            assert(content(now, set) == content(history, set));
        }
    }
    if after.stage == Stage::CleaningUp {
        assert forall|i: int| 0 <= i < after.stale@.len() implies !referenced(
            now,
            #[trigger] after.stale@[i],
        ) by {
            lemma_activation_references(history, rules, active, after.stale@[i]);
            assert(before.stale@[i] == after.stale@[i]);
        }
    }
}

/// The one transaction that points the rules at the new sets puts exactly the new list into force,
/// beside whatever list of the other direction was in force: a packet is dropped exactly where a
/// rule applies to it. The sets that go afterwards are no longer looked at.
pub proof fn law_activation_replaces_the_list(
    before: Rollout,
    after: Rollout,
    history: Seq<Step>,
    config: Config,
    rules: Seq<RenderedRule>,
    snapshot: Snapshot,
    lists: Snapshot,
    inbound: Seq<AddressPrefix>,
    outbound: Seq<AddressPrefix>,
    packet: Packet,
)
    requires
        before.stage == Stage::Activating,
        in_step(before, history, snapshot),
        crate::rollout::stepped(before, Event::Accepted, after, config, snapshot),
        before.active.generation(other(before.direction)) matches Some(generation) ==> holds(
            history,
            other(before.direction),
            generation,
            lists.list(other(before.direction)),
        ),
        lists.list(before.direction) == snapshot.list(before.direction),
        lists.inbound.lists(inbound),
        lists.outbound.lists(outbound),
        packet.wf(),
    ensures
        ({
            let now = after_event(history, before, Event::Accepted, config, rules, snapshot);
            &&& after.active == before.active.replaced(before.direction, before.generation)
            &&& drops(now, packet) <==> listed_in(rules, after.active, packet, inbound, outbound)
            &&& in_step(after, now, snapshot)
            &&& holds(now, before.direction, before.generation, snapshot.list(before.direction))
        }),
{
    let active = before.active.replaced(before.direction, before.generation);
    let now = after_event(history, before, Event::Accepted, config, rules, snapshot);
    lemma_activated(before, after, history, config, rules, snapshot);
    assert forall|direction: Direction|
        (#[trigger] active.generation(direction)) is Some implies holds(
        history,
        direction,
        active.generation(direction)->0,
        lists.list(direction),
    ) by {
        if direction != before.direction {
            assert(direction == other(before.direction));
        }
    }
    law_activation_enforces_rules(history, rules, active, lists, inbound, outbound, packet);
}

/// A table that exists without the layout marker is left alone: the request fails, and nothing is
/// sent.
pub proof fn law_unmarked_table_is_left_alone(
    before: Rollout,
    tables: Vec<String>,
    sets: Vec<SetInfo>,
    after: Rollout,
    action: Action,
    config: Config,
    rules: Seq<RenderedRule>,
    snapshot: Snapshot,
)
    requires
        before.stage == Stage::Inspecting,
        crate::text::has_text(tables@, config.nftables.table@),
        !crate::netlink::recognized(sets@, config.nftables.table@),
        crate::rollout::stepped(
            before,
            Event::Inspected { tables, sets },
            after,
            config,
            snapshot,
        ),
        crate::rollout::acts(after, action, config, rules, snapshot),
    ensures
        action == Action::Finish,
        after.failure is Some,
        after.active == before.active,
{
}

/// The rules are pointed at new sets only where the kernel reports both of them with as many
/// elements as the list has intervals.
pub proof fn law_only_healthy_sets_are_activated(
    before: Rollout,
    event: Event,
    after: Rollout,
    config: Config,
    snapshot: Snapshot,
)
    requires
        crate::rollout::follows(before.stage, event),
        crate::rollout::stepped(before, event, after, config, snapshot),
        after.stage == Stage::Activating,
    ensures
        before.stage == Stage::Checking,
        event matches Event::Inspected { sets, .. } && crate::rollout::healthy(
            sets@,
            config.nftables.table@,
            after.direction,
            after.generation,
            snapshot.list(after.direction),
        ),
{
}

} // verus!
