//! A request from its beginning to its end: what it leaves in force.
use crate::address::AddressPrefix;
use crate::batch::Active;
use crate::batch::AddressSet;
use crate::batch::Expression;
use crate::batch::Snapshot;
use crate::batch::Step;
use crate::config::Config;
use crate::config::Direction;
use crate::config::RuleMapping;
use crate::policy::Packet;
use crate::rollout::Event;
use crate::rollout::Rollout;
use crate::rollout::Stage;
use crate::rules::RenderedRule;
use crate::wire::SetInfo;
use crate::zones::Chain;
use crate::zones::ResolvedRule;
use crate::zones::Zone;
use crate::zones::Zones;
use vstd::arithmetic::power2::*;
use vstd::prelude::*;

verus! {

/// A request, event by event: where the rollout stood before each event and at the end, and what
/// had been done to the table by then.
pub struct Run {
    pub rollouts: Seq<Rollout>,
    pub events: Seq<Event>,
    pub histories: Seq<Seq<Step>>,
}

/// An event takes the rollout one step further. The kernel lists what is in the table. Where it
/// turns out that the table has to be set up, the table may be gone with all that was done to it.
pub open spec fn takes(
    config: Config,
    rules: Seq<RenderedRule>,
    snapshot: Snapshot,
    before: Rollout,
    event: Event,
    after: Rollout,
    history: Seq<Step>,
    now: Seq<Step>,
) -> bool {
    &&& crate::rollout::follows(before.stage, event)
    &&& crate::rollout::stepped(before, event, after, config, snapshot)
    &&& event matches Event::Inspected { sets, .. } ==> crate::policy::reported(
        history,
        config.nftables.table@,
        sets@,
    )
    &&& now == crate::policy::after_event(history, before, event, config, rules, snapshot)
        || after.stage == Stage::SettingUp && now.len() == 0
}

impl Run {
    /// Each event takes the rollout one step further.
    pub open spec fn wf(
        self,
        config: Config,
        rules: Seq<RenderedRule>,
        snapshot: Snapshot,
    ) -> bool {
        &&& self.rollouts.len() == self.events.len() + 1
        &&& self.histories.len() == self.events.len() + 1
        &&& forall|i: int|
            0 <= i < self.events.len() ==> takes(
                config,
                rules,
                snapshot,
                self.rollouts[i],
                #[trigger] self.events[i],
                self.rollouts[i + 1],
                self.histories[i],
                self.histories[i + 1],
            )
    }

    /// The request ended without a failure.
    pub open spec fn succeeded(self) -> bool {
        self.rollouts.last().stage == Stage::Ended && self.rollouts.last().failure is None
    }
}

/// The request is for this list: it is for the list alone, or for the whole table.
pub open spec fn is_for(request: Option<Direction>, direction: Direction) -> bool {
    request is None || request == Some(direction)
}

/// The list was to be replaced by this request, and has been.
spec fn done(
    rollout: Rollout,
    config: Config,
    request: Option<Direction>,
    direction: Direction,
) -> bool {
    &&& crate::config::on_some_chain(config.rules, direction)
    &&& is_for(request, direction)
    &&& !rollout.pends(direction) || rollout.stage == Stage::CleaningUp && rollout.direction
        == direction
}

/// The rules look at a generation of the list's sets that holds the list of the snapshot.
spec fn in_force(
    rollout: Rollout,
    history: Seq<Step>,
    active: Active,
    snapshot: Snapshot,
    direction: Direction,
) -> bool {
    &&& active.generation(direction) is Some
    &&& rollout.active.generation(direction) == active.generation(direction)
    &&& crate::policy::holds(
        history,
        direction,
        active.generation(direction)->0,
        snapshot.list(direction),
    )
}

/// What is done is in force.
spec fn settled(
    rollout: Rollout,
    history: Seq<Step>,
    rules: Seq<RenderedRule>,
    active: Active,
    config: Config,
    snapshot: Snapshot,
    request: Option<Direction>,
) -> bool {
    rollout.failure is None ==> forall|direction: Direction| #[trigger]
        done(rollout, config, request, direction) ==> crate::policy::enforces(
            history,
            rules,
            active,
        ) && in_force(rollout, history, active, snapshot, direction)
}

/// Every list that a mapping names has a rule.
spec fn have_rules(config: Config, rules: Seq<RenderedRule>) -> bool {
    forall|direction: Direction| #[trigger]
        crate::config::on_some_chain(config.rules, direction) ==> exists|k: int|
            0 <= k < rules.len() && (#[trigger] rules[k]).direction == direction
}

/// Every list that a mapping of some chain names is due once a request for the whole table has
/// begun, and again once the table has to be set up, whichever lists the other mappings name.
pub proof fn law_every_named_list_is_due(
    rollout: Rollout,
    before: Rollout,
    config: Config,
    supported: bool,
    active: Active,
    direction: Direction,
)
    requires
        crate::config::on_some_chain(config.rules, direction),
        rollout.begun(config, None, supported, active) || crate::rollout::rebuilds(
            before,
            rollout,
            config,
        ),
    ensures
        rollout.pends(direction),
{
    crate::config::law_any_chain_makes_a_list_used(config.rules, direction);
}

/// A request for one list has that list to replace, and no other until the table has to be set up.
pub proof fn law_a_single_list_is_due_alone(
    rollout: Rollout,
    config: Config,
    request: Direction,
    supported: bool,
    active: Active,
    direction: Direction,
)
    requires
        rollout.begun(config, Some(request), supported, active),
    ensures
        rollout.pends(direction) <==> direction == request,
{
}

/// A rule of the table looks at the sets of its list's generation, so the kernel lists them.
proof fn lemma_listed_sets(
    history: Seq<Step>,
    rules: Seq<RenderedRule>,
    active: Active,
    table: Seq<char>,
    sets: Seq<SetInfo>,
    direction: Direction,
    k: int,
)
    requires
        crate::policy::enforces(history, rules, active),
        crate::policy::reported(history, table, sets),
        0 <= k < rules.len(),
        rules[k].direction == direction,
        active.generation(direction) is Some,
    ensures
        crate::rollout::complete(sets, table, direction, active.generation(direction)->0),
{
    let generation = active.generation(direction)->0;
    let chain = rules[k].chain;
    assert forall|v6: bool| crate::netlink::has_set(
        sets,
        table,
        (#[trigger] crate::batch::set_of(direction, v6, generation)).text(),
    ) by {
        let set = crate::batch::set_of(direction, v6, generation);
        let rule = crate::batch::expressions(rules[k], v6, generation);
        assert(crate::policy::form_at(rules, active, chain, rule, k, v6));
        assert(crate::policy::is_form(rules, active, chain, rule));
        assert(crate::policy::installed(history, chain).contains(rule));
        assert(rule[rule.len() - 2] == Expression::Lookup(set));
        assert(rule.contains(Expression::Lookup(set)));
        assert(crate::policy::referenced(history, set));
    }
    assert(crate::netlink::has_set(
        sets,
        table,
        crate::batch::set_of(direction, false, generation).text(),
    ));
    assert(crate::netlink::has_set(
        sets,
        table,
        crate::batch::set_of(direction, true, generation).text(),
    ));
}

/// A transaction that is not an activation leaves what is done in force.
proof fn lemma_done_is_kept(
    before: Rollout,
    history: Seq<Step>,
    config: Config,
    rules: Seq<RenderedRule>,
    snapshot: Snapshot,
    request: Option<Direction>,
    active: Active,
    direction: Direction,
)
    requires
        before.consistent(),
        before.failure is None,
        !(before.stage is Activating),
        crate::policy::in_step(before, history, snapshot),
        crate::policy::enforces(history, rules, active),
        in_force(before, history, active, snapshot, direction),
        done(before, config, request, direction),
    ensures
        ({
            let more = crate::rollout::pending(before, config, rules, snapshot);
            &&& crate::policy::enforces(history + more, rules, active)
            &&& in_force(before, history + more, active, snapshot, direction)
        }),
{
    let more = crate::rollout::pending(before, config, rules, snapshot);
    let now = history + more;
    crate::policy::lemma_pending_out_of_sight(before, history, config, rules, snapshot);
    crate::policy::lemma_out_of_sight(history, more);
    assert(crate::policy::enforces(now, rules, active)) by {
        assert forall|chain: Chain, rule: Seq<Expression>| #[trigger]
            crate::policy::installed(now, chain).contains(rule) <==> crate::policy::is_form(
                rules,
                active,
                chain,
                rule,
            ) by {
            assert(crate::policy::installed(now, chain) == crate::policy::installed(
                history,
                chain,
            ));
            assert(crate::policy::installed(history, chain).contains(rule)
                <==> crate::policy::is_form(rules, active, chain, rule));
        }
    }
    let generation = active.generation(direction)->0;
    assert forall|v6: bool|
        crate::policy::content(now, #[trigger] crate::batch::set_of(direction, v6, generation))
            == crate::batch::all_boundaries(
            crate::batch::family_of(snapshot.list(direction), v6),
        ) by {
        let set = crate::batch::set_of(direction, v6, generation);
        assert(crate::policy::content(history, set) == crate::batch::all_boundaries(
            crate::batch::family_of(snapshot.list(direction), v6),
        ));
        if direction != before.direction {
            crate::policy::lemma_pending_sets(before, history, config, rules, snapshot, set);
        } else {
            assert(before.stage == Stage::CleaningUp || before.stage == Stage::SettingUp
                || more.len() == 0);
            assert forall|i: int| 0 <= i < more.len() implies match #[trigger] more[i] {
                Step::DeleteTable => false,
                Step::AddElements { set: other, .. } => other != set,
                Step::DeleteSet(other) => other != set,
                _ => true,
            } by {
                if before.stage == Stage::CleaningUp {
                    assert(more[i] == Step::DeleteSet(before.stale@[i]));
                }
            }
            crate::policy::lemma_content_kept(history, more, set);
        }
    }
}

/// One event: the table stays as the rollout takes it to be, and what is done is in force.
proof fn lemma_event(
    before: Rollout,
    event: Event,
    after: Rollout,
    history: Seq<Step>,
    now: Seq<Step>,
    config: Config,
    rules: Seq<RenderedRule>,
    snapshot: Snapshot,
    request: Option<Direction>,
    active: Active,
) -> (next: Active)
    requires
        before.consistent(),
        crate::policy::in_step(before, history, snapshot),
        settled(before, history, rules, active, config, snapshot, request),
        have_rules(config, rules),
        takes(config, rules, snapshot, before, event, after, history, now),
    ensures
        after.consistent(),
        crate::policy::in_step(after, now, snapshot),
        settled(after, now, rules, next, config, snapshot, request),
{
    crate::rollout::law_success_means_every_list_is_in_force(
        before,
        event,
        after,
        config,
        snapshot,
        Direction::Inbound,
    );
    let activates = before.stage is Activating && event is Accepted;
    let next = if activates {
        before.active.replaced(before.direction, before.generation)
    } else {
        active
    };
    if after.stage == Stage::SettingUp {
        assert(crate::rollout::rebuilds(before, after, config));
        assert forall|direction: Direction| !done(after, config, request, direction) by {
            if crate::config::on_some_chain(config.rules, direction) {
                law_every_named_list_is_due(
                    after,
                    before,
                    config,
                    true,
                    active,
                    direction,
                );
            }
        }
    } else if activates {
        crate::policy::lemma_activated(before, after, history, config, rules, snapshot);
        assert forall|direction: Direction|
            after.failure is None && #[trigger] done(
                after,
                config,
                request,
                direction,
            ) implies crate::policy::enforces(now, rules, next) && in_force(
            after,
            now,
            next,
            snapshot,
            direction,
        ) by {
            if direction != before.direction {
                assert(done(before, config, request, direction));
                assert(in_force(before, history, active, snapshot, direction));
                let generation = active.generation(direction)->0;
                assert forall|v6: bool|
                    crate::policy::content(
                        now,
                        #[trigger] crate::batch::set_of(direction, v6, generation),
                    ) == crate::batch::all_boundaries(
                        crate::batch::family_of(snapshot.list(direction), v6),
                    ) by {
                    let set = crate::batch::set_of(direction, v6, generation);
                    assert(crate::policy::content(now, set) == crate::policy::content(
                        history,
                        set,
                    ));
                }
            }
        }
    } else {
        crate::policy::law_staging_is_invisible(
            before,
            event,
            after,
            history,
            config,
            rules,
            snapshot,
            arbitrary_packet(),
        );
        assert forall|direction: Direction|
            after.failure is None && #[trigger] done(
                after,
                config,
                request,
                direction,
            ) implies crate::policy::enforces(now, rules, next) && in_force(
            after,
            now,
            next,
            snapshot,
            direction,
        ) by {
            assert(before.failure is None);
            assert(done(before, config, request, direction));
            assert(in_force(before, history, active, snapshot, direction));
            if event is Accepted {
                lemma_done_is_kept(
                    before,
                    history,
                    config,
                    rules,
                    snapshot,
                    request,
                    active,
                    direction,
                );
            } else if before.stage == Stage::Inspecting {
                match event {
                    Event::Inspected { tables, sets } => {
                        let k = choose|k: int|
                            0 <= k < rules.len() && (#[trigger] rules[k]).direction == direction;
                        lemma_listed_sets(
                            history,
                            rules,
                            active,
                            config.nftables.table@,
                            sets@,
                            direction,
                            k,
                        );
                    },
                    _ => {},
                }
            }
        }
    }
    next
}

/// Some packet.
spec fn arbitrary_packet() -> Packet {
    arbitrary()
}

/// The events so far: the table is as the rollout takes it to be, and what is done is in force.
proof fn lemma_events(
    run: Run,
    config: Config,
    rules: Seq<RenderedRule>,
    snapshot: Snapshot,
    supported: bool,
    active: Active,
    request: Option<Direction>,
    n: int,
) -> (next: Active)
    requires
        run.wf(config, rules, snapshot),
        run.rollouts[0].begun(config, request, supported, active),
        have_rules(config, rules),
        0 <= n <= run.events.len(),
    ensures
        run.rollouts[n].consistent(),
        crate::policy::in_step(run.rollouts[n], run.histories[n], snapshot),
        settled(run.rollouts[n], run.histories[n], rules, next, config, snapshot, request),
    decreases n,
{
    if n == 0 {
        let first = run.rollouts[0];
        crate::rollout::law_a_request_begins_consistent(first, config, request, supported, active);
        assert forall|direction: Direction| !done(first, config, request, direction) by {
            if crate::config::on_some_chain(config.rules, direction) && is_for(request, direction) {
                if request is None {
                    law_every_named_list_is_due(
                        first,
                        first,
                        config,
                        supported,
                        active,
                        direction,
                    );
                } else {
                    law_a_single_list_is_due_alone(
                        first,
                        config,
                        direction,
                        supported,
                        active,
                        direction,
                    );
                }
            }
        }
        active
    } else {
        let known = lemma_events(
            run,
            config,
            rules,
            snapshot,
            supported,
            active,
            request,
            n - 1,
        );
        let event = run.events[n - 1];
        lemma_event(
            run.rollouts[n - 1],
            event,
            run.rollouts[n],
            run.histories[n - 1],
            run.histories[n],
            config,
            rules,
            snapshot,
            request,
            known,
        )
    }
}

/// The rules of a plan are for exactly the lists that the mappings of the configuration name.
proof fn lemma_planned_lists(
    config: Config,
    zones: Zones,
    rules: Seq<RenderedRule>,
    protected: Seq<String>,
    direction: Direction,
)
    requires
        crate::daemon::planned(config, zones, rules, protected),
    ensures
        crate::config::on_some_chain(config.rules, direction) <==> exists|k: int|
            0 <= k < rules.len() && (#[trigger] rules[k]).direction == direction,
{
    let all = crate::zones::mappings(config.rules);
    let resolved = choose|resolved: Seq<ResolvedRule>| #[trigger]
        crate::zones::all_resolve(zones.zones(), all, resolved) && rules == crate::rules::rendered(
            resolved,
        );
    crate::rules::law_every_mapping_has_a_rule(resolved, direction);
    if crate::config::on_some_chain(config.rules, direction) {
        let mapping = choose|mapping: RuleMapping|
            #![trigger config.rules.input@.contains(mapping)]
            #![trigger config.rules.forward@.contains(mapping)]
            #![trigger config.rules.output@.contains(mapping)]
            mapping.blocklist == direction && (config.rules.input@.contains(mapping)
                || config.rules.forward@.contains(mapping) || config.rules.output@.contains(
                mapping,
            ));
        crate::zones::law_mappings_keep_their_chains(config.rules, Chain::Input, mapping);
        crate::zones::law_mappings_keep_their_chains(config.rules, Chain::Forward, mapping);
        crate::zones::law_mappings_keep_their_chains(config.rules, Chain::Output, mapping);
        let chain = if config.rules.input@.contains(mapping) {
            Chain::Input
        } else if config.rules.forward@.contains(mapping) {
            Chain::Forward
        } else {
            Chain::Output
        };
        let k = choose|k: int| 0 <= k < all.len() && #[trigger] all[k] == (chain, mapping);
        assert(crate::zones::resolves(zones.zones(), all[k].0, all[k].1, resolved[k]));
        assert(resolved[k].blocklist == direction);
    }
    if exists|k: int| 0 <= k < rules.len() && (#[trigger] rules[k]).direction == direction {
        let k = choose|k: int|
            0 <= k < resolved.len() && (#[trigger] resolved[k]).blocklist == direction;
        let (chain, mapping) = all[k];
        assert(crate::zones::resolves(zones.zones(), chain, mapping, resolved[k]));
        assert(all.contains((chain, mapping)));
        crate::zones::law_mappings_keep_their_chains(config.rules, chain, mapping);
    }
}

/// The entry holds the address: the address is one of the `2^k` from the entry's on, where `k` is
/// the number of bits that the entry's prefix leaves open.
pub open spec fn entry_holds(entry: AddressPrefix, v6: bool, address: int) -> bool {
    match entry {
        AddressPrefix::V4 { address: first, prefix_len } => !v6 && first <= address < first + pow2(
            (32 - prefix_len) as nat,
        ),
        AddressPrefix::V6 { address: first, prefix_len } => v6 && first <= address < first + pow2(
            (128 - prefix_len) as nat,
        ),
    }
}

pub open spec fn list_holds(entries: Seq<AddressPrefix>, v6: bool, address: int) -> bool {
    exists|entry: AddressPrefix| #[trigger]
        entries.contains(entry) && entry_holds(entry, v6, address)
}

/// The zones on one side of a mapping have the interface; zones without any interface, like no zones
/// at all, leave the side open.
pub open spec fn side_covers(zones: Seq<Zone>, names: Seq<String>, interface: Seq<char>) -> bool {
    ||| crate::zones::belongs(zones, names, interface)
    ||| forall|other: Seq<char>| !#[trigger] crate::zones::belongs(zones, names, other)
}

/// The mapping covers the packet: the zones on both sides do, and the list of inbound mappings has
/// the packet's source, that of outbound mappings its destination.
pub open spec fn mapping_covers(
    zones: Seq<Zone>,
    mapping: RuleMapping,
    packet: Packet,
    inbound: Seq<AddressPrefix>,
    outbound: Seq<AddressPrefix>,
) -> bool {
    &&& side_covers(zones, mapping.ingress_zones@, packet.ingress)
    &&& side_covers(zones, mapping.egress_zones@, packet.egress)
    &&& match mapping.blocklist {
        Direction::Inbound => list_holds(inbound, packet.v6, packet.source),
        Direction::Outbound => list_holds(outbound, packet.v6, packet.destination),
    }
}

/// A mapping that the configuration has for the packet's chain covers the packet.
pub open spec fn is_covered(
    config: Config,
    zones: Seq<Zone>,
    packet: Packet,
    inbound: Seq<AddressPrefix>,
    outbound: Seq<AddressPrefix>,
) -> bool {
    exists|mapping: RuleMapping|
        #![trigger mapping_covers(zones, mapping, packet, inbound, outbound)]
        crate::zones::rules_on(config.rules, packet.chain).contains(mapping) && mapping_covers(
            zones,
            mapping,
            packet,
            inbound,
            outbound,
        )
}

pub proof fn lemma_list_holds(entries: Seq<AddressPrefix>, v6: bool, address: int)
    ensures
        list_holds(entries, v6, address) <==> crate::layout::nets_contain(entries, v6, address),
{
    if list_holds(entries, v6, address) {
        let entry = choose|entry: AddressPrefix| #[trigger]
            entries.contains(entry) && entry_holds(entry, v6, address);
        let i = choose|i: int| 0 <= i < entries.len() && #[trigger] entries[i] == entry;
        assert(crate::layout::net_span(entries[i]).contains(v6, address));
    }
    if crate::layout::nets_contain(entries, v6, address) {
        let i = choose|i: int|
            0 <= i < entries.len() && crate::layout::net_span(#[trigger] entries[i]).contains(
                v6,
                address,
            );
        assert(entries.contains(entries[i]));
    }
}

proof fn lemma_side_covers(zones: Seq<Zone>, names: Seq<String>, interface: Seq<char>)
    requires
        crate::zones::zones_wf(zones),
    ensures
        side_covers(zones, names, interface) == crate::policy::zones_side(zones, names, interface),
{
    crate::zones::law_names_stand_for_their_zones(zones, names, interface);
    assert forall|other: Seq<char>|
        #![trigger crate::zones::belongs(zones, names, other)]
        #![trigger crate::zones::in_zones(zones, names, other)]
        crate::zones::belongs(zones, names, other) == crate::zones::in_zones(
            zones,
            names,
            other,
        ) by {
        crate::zones::law_names_stand_for_their_zones(zones, names, other);
    }
}

/// The rules of a plan apply to a packet exactly where a configured mapping covers it.
pub proof fn law_rules_apply_where_mappings_cover(
    config: Config,
    zones: Zones,
    rules: Seq<RenderedRule>,
    protected: Seq<String>,
    inbound: Seq<AddressPrefix>,
    outbound: Seq<AddressPrefix>,
    packet: Packet,
)
    requires
        crate::zones::zones_wf(zones.zones()),
        crate::daemon::planned(config, zones, rules, protected),
    ensures
        crate::policy::listed(rules, packet, inbound, outbound) <==> is_covered(
            config,
            zones.zones(),
            packet,
            inbound,
            outbound,
        ),
{
    let z = zones.zones();
    let all = crate::zones::mappings(config.rules);
    let resolved = choose|resolved: Seq<ResolvedRule>| #[trigger]
        crate::zones::all_resolve(z, all, resolved) && rules == crate::rules::rendered(resolved);
    crate::policy::lemma_listed_is_configured(
        config.rules,
        z,
        resolved,
        inbound,
        outbound,
        packet,
    );
    assert forall|chain: Chain, mapping: RuleMapping| #[trigger] crate::policy::configured_applies(
        z,
        chain,
        mapping,
        packet,
        crate::policy::entries(inbound, outbound, mapping.blocklist),
    ) == (chain == packet.chain && mapping_covers(
        z,
        mapping,
        packet,
        inbound,
        outbound,
    )) by {
        lemma_side_covers(z, mapping.ingress_zones@, packet.ingress);
        lemma_side_covers(z, mapping.egress_zones@, packet.egress);
        lemma_list_holds(inbound, packet.v6, packet.source);
        lemma_list_holds(outbound, packet.v6, packet.destination);
    }
    if crate::policy::listed(rules, packet, inbound, outbound) {
        let k = choose|k: int|
            0 <= k < all.len() && crate::policy::configured_applies(
                z,
                (#[trigger] all[k]).0,
                all[k].1,
                packet,
                crate::policy::entries(inbound, outbound, all[k].1.blocklist),
            );
        let (chain, mapping) = all[k];
        assert(all.contains((chain, mapping)));
        crate::zones::law_mappings_keep_their_chains(config.rules, chain, mapping);
        assert(mapping_covers(z, mapping, packet, inbound, outbound));
    }
    if is_covered(config, z, packet, inbound, outbound) {
        let mapping = choose|mapping: RuleMapping|
            #![trigger mapping_covers(z, mapping, packet, inbound, outbound)]
            crate::zones::rules_on(config.rules, packet.chain).contains(mapping)
                && mapping_covers(z, mapping, packet, inbound, outbound);
        crate::zones::law_mappings_keep_their_chains(config.rules, packet.chain, mapping);
        let k = choose|k: int| 0 <= k < all.len() && #[trigger] all[k] == (packet.chain, mapping);
        assert(crate::policy::configured_applies(
            z,
            all[k].0,
            all[k].1,
            packet,
            crate::policy::entries(inbound, outbound, all[k].1.blocklist),
        ));
    }
}

/// A request that ends without a failure has put the lists it is for into force: for each of them
/// that a mapping names, the sets of one generation hold exactly the snapshot's list, every rule of
/// the list is in the table and looks at these sets, and no rule looks at any other sets of the
/// list.
pub proof fn law_a_successful_request_fills_its_lists(
    run: Run,
    config: Config,
    zones: Zones,
    rules: Seq<RenderedRule>,
    protected: Seq<String>,
    snapshot: Snapshot,
    supported: bool,
    active: Active,
    request: Option<Direction>,
    direction: Direction,
    k: int,
    set: AddressSet,
)
    requires
        crate::daemon::planned(config, zones, rules, protected),
        run.wf(config, rules, snapshot),
        run.rollouts[0].begun(config, request, supported, active),
        run.succeeded(),
        crate::config::on_some_chain(config.rules, direction),
        is_for(request, direction),
    ensures
        run.rollouts.last().active.generation(direction) is Some,
        ({
            let history = run.histories.last();
            let generation = run.rollouts.last().active.generation(direction)->0;
            &&& crate::policy::holds(history, direction, generation, snapshot.list(direction))
            &&& 0 <= k < rules.len() && rules[k].direction == direction
                ==> crate::policy::installed(history, rules[k].chain).contains(
                crate::batch::expressions(rules[k], false, generation),
            ) && crate::policy::installed(history, rules[k].chain).contains(
                crate::batch::expressions(rules[k], true, generation),
            )
            &&& set.direction == direction && crate::policy::referenced(history, set)
                ==> set.generation == generation
        }),
{
    let history = run.histories.last();
    let known = lemma_ended(
        run,
        config,
        zones,
        rules,
        protected,
        snapshot,
        supported,
        active,
        request,
    );
    assert(done(run.rollouts.last(), config, request, direction));
    let generation = known.generation(direction)->0;
    if 0 <= k < rules.len() && rules[k].direction == direction {
        let chain = rules[k].chain;
        let (v4, v6) = (
            crate::batch::expressions(rules[k], false, generation),
            crate::batch::expressions(rules[k], true, generation),
        );
        assert(crate::policy::form_at(rules, known, chain, v4, k, false));
        assert(crate::policy::form_at(rules, known, chain, v6, k, true));
        assert(crate::policy::is_form(rules, known, chain, v4));
        assert(crate::policy::is_form(rules, known, chain, v6));
        assert(crate::policy::installed(history, chain).contains(v4));
        assert(crate::policy::installed(history, chain).contains(v6));
    }
    lemma_enforced_references(history, rules, known, set);
}

/// Rules that are in force look at the sets of the generations in force alone.
proof fn lemma_enforced_references(
    history: Seq<Step>,
    rules: Seq<RenderedRule>,
    active: Active,
    set: AddressSet,
)
    requires
        crate::policy::enforces(history, rules, active),
    ensures
        crate::policy::referenced(history, set) ==> active.generation(set.direction) == Some(
            set.generation,
        ),
{
    if crate::policy::referenced(history, set) {
        let (chain, rule) = choose|chain: Chain, rule: Seq<Expression>| #[trigger]
            crate::policy::installed(history, chain).contains(rule) && rule.contains(
                Expression::Lookup(set),
            );
        assert(crate::policy::is_form(rules, active, chain, rule));
        let (k, v6) = choose|k: int, v6: bool| #[trigger]
            crate::policy::form_at(rules, active, chain, rule, k, v6);
        let i = choose|i: int| 0 <= i < rule.len() && rule[i] == Expression::Lookup(set);
        assert(rule[i] is Lookup);
    }
}

proof fn lemma_ended(
    run: Run,
    config: Config,
    zones: Zones,
    rules: Seq<RenderedRule>,
    protected: Seq<String>,
    snapshot: Snapshot,
    supported: bool,
    active: Active,
    request: Option<Direction>,
) -> (known: Active)
    requires
        crate::daemon::planned(config, zones, rules, protected),
        run.wf(config, rules, snapshot),
        run.rollouts[0].begun(config, request, supported, active),
        run.succeeded(),
    ensures
        !run.rollouts.last().pends(Direction::Inbound),
        !run.rollouts.last().pends(Direction::Outbound),
        settled(
            run.rollouts.last(),
            run.histories.last(),
            rules,
            known,
            config,
            snapshot,
            request,
        ),
{
    assert forall|direction: Direction| #[trigger]
        crate::config::on_some_chain(config.rules, direction) implies exists|k: int|
        0 <= k < rules.len() && (#[trigger] rules[k]).direction == direction by {
        lemma_planned_lists(config, zones, rules, protected, direction);
    }
    lemma_events(
        run,
        config,
        rules,
        snapshot,
        supported,
        active,
        request,
        run.events.len() as int,
    )
}

/// A request for the whole table that ends without a failure leaves the firewall as configured: a
/// packet is dropped exactly where a mapping of its chain covers it, whatever was in force before.
pub proof fn law_a_successful_request_enforces_the_configuration(
    run: Run,
    config: Config,
    zones: Zones,
    rules: Seq<RenderedRule>,
    protected: Seq<String>,
    snapshot: Snapshot,
    supported: bool,
    active: Active,
    inbound: Seq<AddressPrefix>,
    outbound: Seq<AddressPrefix>,
    packet: Packet,
)
    requires
        crate::zones::zones_wf(zones.zones()),
        crate::daemon::planned(config, zones, rules, protected),
        config.rules.input@.len() + config.rules.forward@.len() + config.rules.output@.len() > 0,
        run.wf(config, rules, snapshot),
        run.rollouts[0].begun(config, None, supported, active),
        run.succeeded(),
        snapshot.inbound.lists(inbound),
        snapshot.outbound.lists(outbound),
        packet.wf(),
    ensures
        crate::policy::drops(run.histories.last(), packet) <==> is_covered(
            config,
            zones.zones(),
            packet,
            inbound,
            outbound,
        ),
{
    let last = run.rollouts.last();
    let history = run.histories.last();
    let known = lemma_ended(
        run,
        config,
        zones,
        rules,
        protected,
        snapshot,
        supported,
        active,
        None,
    );
    let ins = crate::config::on_some_chain(config.rules, Direction::Inbound);
    let outs = crate::config::on_some_chain(config.rules, Direction::Outbound);
    lemma_some_list(config);
    assert(ins ==> done(last, config, None, Direction::Inbound));
    assert(outs ==> done(last, config, None, Direction::Outbound));
    assert(crate::policy::enforces(history, rules, known));
    let used = Active {
        inbound: if ins {
            known.inbound
        } else {
            None
        },
        outbound: if outs {
            known.outbound
        } else {
            None
        },
    };
    assert forall|k: int| 0 <= k < rules.len() implies used.generation(
        (#[trigger] rules[k]).direction,
    ) is Some && used.generation(rules[k].direction) == known.generation(rules[k].direction) by {
        lemma_planned_lists(config, zones, rules, protected, rules[k].direction);
    }
    assert(crate::policy::enforces(history, rules, used)) by {
        assert forall|chain: Chain, rule: Seq<Expression>| #[trigger]
            crate::policy::installed(history, chain).contains(rule) <==> crate::policy::is_form(
                rules,
                used,
                chain,
                rule,
            ) by {
            if crate::policy::is_form(rules, known, chain, rule) {
                let (k, v6) = choose|k: int, v6: bool| #[trigger]
                    crate::policy::form_at(rules, known, chain, rule, k, v6);
                assert(crate::policy::form_at(rules, used, chain, rule, k, v6));
            }
            if crate::policy::is_form(rules, used, chain, rule) {
                let (k, v6) = choose|k: int, v6: bool| #[trigger]
                    crate::policy::form_at(rules, used, chain, rule, k, v6);
                assert(crate::policy::form_at(rules, known, chain, rule, k, v6));
            }
        }
    }
    crate::policy::lemma_enforced_rules_drop(
        history,
        rules,
        used,
        snapshot,
        inbound,
        outbound,
        packet,
    );
    law_rules_apply_where_mappings_cover(
        config,
        zones,
        rules,
        protected,
        inbound,
        outbound,
        packet,
    );
    if crate::policy::listed(rules, packet, inbound, outbound) {
        let k = choose|k: int|
            0 <= k < rules.len() && crate::policy::rule_applies(
                #[trigger] rules[k],
                packet,
                crate::policy::entries(inbound, outbound, rules[k].direction),
            );
        assert(used.generation(rules[k].direction) is Some);
    }
}

proof fn lemma_some_list(config: Config)
    requires
        config.rules.input@.len() + config.rules.forward@.len() + config.rules.output@.len() > 0,
    ensures
        crate::config::on_some_chain(config.rules, Direction::Inbound)
            || crate::config::on_some_chain(config.rules, Direction::Outbound),
{
    let mapping = if config.rules.input@.len() > 0 {
        config.rules.input@[0]
    } else if config.rules.forward@.len() > 0 {
        config.rules.forward@[0]
    } else {
        config.rules.output@[0]
    };
    assert(config.rules.input@.contains(mapping) || config.rules.forward@.contains(mapping)
        || config.rules.output@.contains(mapping));
}

/// Nothing stands in the way of the request: the kernel refuses nothing, the table is there once it
/// was set up, a table that is there has the layout marker and a free generation of each list, and
/// staged sets are listed with as many elements as the list has intervals.
pub open spec fn is_smooth(rollout: Rollout, event: Event, config: Config, snapshot: Snapshot) -> bool {
    let table = config.nftables.table@;
    match event {
        Event::Refused(_) => false,
        Event::Accepted => true,
        Event::Inspected { tables, sets } => if rollout.stage == Stage::Checking {
            crate::rollout::lists_elements(
                sets@,
                table,
                rollout.set(false).text(),
                snapshot.list(rollout.direction).ipv4@.len(),
            ) && crate::rollout::lists_elements(
                sets@,
                table,
                rollout.set(true).text(),
                snapshot.list(rollout.direction).ipv6@.len(),
            )
        } else if crate::text::has_text(tables@, table) {
            &&& crate::rollout::lists_set(sets@, table, "cidrwall_layout_1"@)
            &&& exists|generation: u8| !#[trigger]
                crate::rollout::is_taken(sets@, table, Direction::Inbound, generation)
            &&& exists|generation: u8| !#[trigger]
                crate::rollout::is_taken(sets@, table, Direction::Outbound, generation)
        } else {
            !rollout.set_up && rollout.supported
        },
    }
}

proof fn lemma_smooth(
    run: Run,
    config: Config,
    rules: Seq<RenderedRule>,
    snapshot: Snapshot,
    supported: bool,
    active: Active,
    request: Option<Direction>,
    n: int,
)
    requires
        run.wf(config, rules, snapshot),
        run.rollouts[0].begun(config, request, supported, active),
        supported,
        !config.nftables.table@.contains('\0'),
        forall|i: int|
            0 <= i < run.events.len() ==> is_smooth(
                run.rollouts[i],
                #[trigger] run.events[i],
                config,
                snapshot,
            ),
        0 <= n <= run.events.len(),
    ensures
        run.rollouts[n].consistent(),
        run.rollouts[n].failure is None,
    decreases n,
{
    if n == 0 {
        let first = run.rollouts[0];
        crate::rollout::law_a_request_begins_consistent(first, config, request, supported, active);
        crate::rollout::law_requests_begin_with_a_look(first, config, request, supported, active);
    } else {
        lemma_smooth(run, config, rules, snapshot, supported, active, request, n - 1);
        let (before, after) = (run.rollouts[n - 1], run.rollouts[n]);
        let event = run.events[n - 1];
        assert(is_smooth(before, event, config, snapshot));
        crate::rollout::law_success_means_every_list_is_in_force(
            before,
            event,
            after,
            config,
            snapshot,
            Direction::Inbound,
        );
        if after.failure is Some {
            crate::rollout::law_requests_fail_for_a_reason(
                before,
                event,
                after,
                config,
                snapshot,
            );
        }
    }
}

/// A request that nothing stands in the way of succeeds.
pub proof fn law_smooth_requests_succeed(
    run: Run,
    config: Config,
    rules: Seq<RenderedRule>,
    snapshot: Snapshot,
    supported: bool,
    active: Active,
    request: Option<Direction>,
)
    requires
        run.wf(config, rules, snapshot),
        run.rollouts[0].begun(config, request, supported, active),
        supported,
        !config.nftables.table@.contains('\0'),
        forall|i: int|
            0 <= i < run.events.len() ==> is_smooth(
                run.rollouts[i],
                #[trigger] run.events[i],
                config,
                snapshot,
            ),
        run.rollouts.last().stage == Stage::Ended,
    ensures
        run.succeeded(),
{
    lemma_smooth(
        run,
        config,
        rules,
        snapshot,
        supported,
        active,
        request,
        run.events.len() as int,
    );
}

/// A request that fails before any list was put into force, at whatever point, has changed nothing
/// for any packet.
pub proof fn law_a_failed_request_leaves_packets_alone(
    run: Run,
    config: Config,
    rules: Seq<RenderedRule>,
    snapshot: Snapshot,
    supported: bool,
    active: Active,
    request: Option<Direction>,
    packet: Packet,
)
    requires
        run.wf(config, rules, snapshot),
        run.rollouts[0].begun(config, request, supported, active),
        forall|i: int|
            0 <= i < run.events.len() ==> !(run.rollouts[i].stage is Activating && (
            #[trigger] run.events[i]) is Accepted),
        forall|i: int|
            0 <= i < run.rollouts.len() ==> !((#[trigger] run.rollouts[i]).stage is SettingUp),
    ensures
        crate::policy::drops(run.histories.last(), packet) == crate::policy::drops(
            run.histories[0],
            packet,
        ),
{
    lemma_packets_alone(
        run,
        config,
        rules,
        snapshot,
        supported,
        active,
        request,
        packet,
        run.events.len() as int,
    );
}

proof fn lemma_packets_alone(
    run: Run,
    config: Config,
    rules: Seq<RenderedRule>,
    snapshot: Snapshot,
    supported: bool,
    active: Active,
    request: Option<Direction>,
    packet: Packet,
    n: int,
)
    requires
        run.wf(config, rules, snapshot),
        run.rollouts[0].begun(config, request, supported, active),
        forall|i: int|
            0 <= i < run.events.len() ==> !(run.rollouts[i].stage is Activating && (
            #[trigger] run.events[i]) is Accepted),
        forall|i: int|
            0 <= i < run.rollouts.len() ==> !((#[trigger] run.rollouts[i]).stage is SettingUp),
        0 <= n <= run.events.len(),
    ensures
        crate::policy::in_step(run.rollouts[n], run.histories[n], snapshot),
        crate::policy::drops(run.histories[n], packet) == crate::policy::drops(
            run.histories[0],
            packet,
        ),
    decreases n,
{
    if n > 0 {
        lemma_packets_alone(
            run,
            config,
            rules,
            snapshot,
            supported,
            active,
            request,
            packet,
            n - 1,
        );
        let event = run.events[n - 1];
        assert(!(run.rollouts[n].stage is SettingUp));
        crate::policy::law_staging_is_invisible(
            run.rollouts[n - 1],
            event,
            run.rollouts[n],
            run.histories[n - 1],
            config,
            rules,
            snapshot,
            packet,
        );
    }
}

/// The other list is in force as it was: the rules look at the same generation of its sets, and
/// these hold what they held.
spec fn other_kept(
    rollout: Rollout,
    history: Seq<Step>,
    first: Seq<Step>,
    rules: Seq<RenderedRule>,
    active: Active,
    other: Direction,
    generation: u8,
) -> bool {
    &&& !rollout.pends(other)
    &&& rollout.active.generation(other) == Some(generation)
    &&& active.generation(other) == Some(generation)
    &&& crate::policy::enforces(history, rules, active)
    &&& forall|v6: bool|
        crate::policy::content(
            history,
            #[trigger] crate::batch::set_of(other, v6, generation),
        ) == crate::policy::content(first, crate::batch::set_of(other, v6, generation))
}

/// One event of a request for the one list leaves the other in force.
proof fn lemma_other_kept(
    before: Rollout,
    event: Event,
    after: Rollout,
    history: Seq<Step>,
    now: Seq<Step>,
    first: Seq<Step>,
    config: Config,
    rules: Seq<RenderedRule>,
    snapshot: Snapshot,
    active: Active,
    other: Direction,
    generation: u8,
    k: int,
) -> (next: Active)
    requires
        before.consistent(),
        before.failure is None,
        after.failure is None,
        crate::policy::in_step(before, history, snapshot),
        takes(config, rules, snapshot, before, event, after, history, now),
        !(after.stage is SettingUp),
        !(before.stage is SettingUp),
        0 <= k < rules.len(),
        rules[k].direction == other,
        other_kept(before, history, first, rules, active, other, generation),
    ensures
        other_kept(after, now, first, rules, next, other, generation),
{
    if before.stage is Activating && event is Accepted {
        crate::policy::lemma_activated(before, after, history, config, rules, snapshot);
        let next = before.active.replaced(before.direction, before.generation);
        assert forall|v6: bool|
            crate::policy::content(
                now,
                #[trigger] crate::batch::set_of(other, v6, generation),
            ) == crate::policy::content(first, crate::batch::set_of(other, v6, generation)) by {
            let set = crate::batch::set_of(other, v6, generation);
            assert(crate::policy::content(now, set) == crate::policy::content(history, set));
        }
        next
    } else {
        if event is Accepted {
            let more = crate::rollout::pending(before, config, rules, snapshot);
            crate::policy::lemma_pending_out_of_sight(before, history, config, rules, snapshot);
            crate::policy::lemma_out_of_sight(history, more);
            assert forall|chain: Chain, rule: Seq<Expression>| #[trigger]
                crate::policy::installed(now, chain).contains(rule) <==> crate::policy::is_form(
                    rules,
                    active,
                    chain,
                    rule,
                ) by {
                assert(crate::policy::installed(now, chain) == crate::policy::installed(
                    history,
                    chain,
                ));
                assert(crate::policy::installed(history, chain).contains(rule)
                    <==> crate::policy::is_form(rules, active, chain, rule));
            }
            assert forall|v6: bool|
                crate::policy::content(
                    now,
                    #[trigger] crate::batch::set_of(other, v6, generation),
                ) == crate::policy::content(
                    first,
                    crate::batch::set_of(other, v6, generation),
                ) by {
                let set = crate::batch::set_of(other, v6, generation);
                crate::policy::lemma_pending_sets(before, history, config, rules, snapshot, set);
            }
        } else {
            match event {
                Event::Inspected { tables, sets } => {
                    lemma_listed_sets(
                        history,
                        rules,
                        active,
                        config.nftables.table@,
                        sets@,
                        other,
                        k,
                    );
                },
                _ => {},
            }
        }
        active
    }
}

proof fn lemma_others_kept(
    run: Run,
    config: Config,
    rules: Seq<RenderedRule>,
    snapshot: Snapshot,
    supported: bool,
    active: Active,
    direction: Direction,
    other: Direction,
    generation: u8,
    k: int,
    n: int,
) -> (next: Active)
    requires
        run.wf(config, rules, snapshot),
        run.rollouts[0].begun(config, Some(direction), supported, active),
        forall|i: int|
            0 <= i < run.rollouts.len() ==> !((#[trigger] run.rollouts[i]).stage is SettingUp)
                && run.rollouts[i].failure is None,
        crate::policy::enforces(run.histories[0], rules, active),
        active.generation(other) == Some(generation),
        other != direction,
        0 <= k < rules.len(),
        rules[k].direction == other,
        0 <= n <= run.events.len(),
    ensures
        run.rollouts[n].consistent(),
        crate::policy::in_step(run.rollouts[n], run.histories[n], snapshot),
        other_kept(
            run.rollouts[n],
            run.histories[n],
            run.histories[0],
            rules,
            next,
            other,
            generation,
        ),
    decreases n,
{
    if n == 0 {
        crate::rollout::law_a_request_begins_consistent(
            run.rollouts[0],
            config,
            Some(direction),
            supported,
            active,
        );
        active
    } else {
        let known = lemma_others_kept(
            run,
            config,
            rules,
            snapshot,
            supported,
            active,
            direction,
            other,
            generation,
            k,
            n - 1,
        );
        let (before, after) = (run.rollouts[n - 1], run.rollouts[n]);
        let event = run.events[n - 1];
        let (history, now) = (run.histories[n - 1], run.histories[n]);
        assert(!(before.stage is SettingUp) && !(after.stage is SettingUp));
        assert(takes(config, rules, snapshot, before, event, after, history, now));
        crate::rollout::law_success_means_every_list_is_in_force(
            before,
            event,
            after,
            config,
            snapshot,
            other,
        );
        if before.stage is Activating && event is Accepted {
            crate::policy::lemma_activated(before, after, history, config, rules, snapshot);
        } else {
            crate::policy::law_staging_is_invisible(
                before,
                event,
                after,
                history,
                config,
                rules,
                snapshot,
                arbitrary_packet(),
            );
        }
        lemma_other_kept(
            before,
            event,
            after,
            history,
            now,
            run.histories[0],
            config,
            rules,
            snapshot,
            known,
            other,
            generation,
            k,
        )
    }
}

proof fn lemma_consistent(
    run: Run,
    config: Config,
    rules: Seq<RenderedRule>,
    snapshot: Snapshot,
    supported: bool,
    active: Active,
    request: Option<Direction>,
    n: int,
)
    requires
        run.wf(config, rules, snapshot),
        run.rollouts[0].begun(config, request, supported, active),
        0 <= n <= run.events.len(),
    ensures
        run.rollouts[n].consistent(),
    decreases n,
{
    if n == 0 {
        crate::rollout::law_a_request_begins_consistent(
            run.rollouts[0],
            config,
            request,
            supported,
            active,
        );
    } else {
        lemma_consistent(run, config, rules, snapshot, supported, active, request, n - 1);
        let event = run.events[n - 1];
        crate::rollout::law_success_means_every_list_is_in_force(
            run.rollouts[n - 1],
            event,
            run.rollouts[n],
            config,
            snapshot,
            Direction::Inbound,
        );
    }
}

/// A request that succeeds has not failed on the way.
proof fn lemma_failures_stay(
    run: Run,
    config: Config,
    rules: Seq<RenderedRule>,
    snapshot: Snapshot,
    supported: bool,
    active: Active,
    request: Option<Direction>,
    n: int,
)
    requires
        run.wf(config, rules, snapshot),
        run.rollouts[0].begun(config, request, supported, active),
        run.succeeded(),
        0 <= n <= run.events.len(),
    ensures
        run.rollouts[n].failure is None,
    decreases run.events.len() - n,
{
    if n < run.events.len() {
        lemma_failures_stay(run, config, rules, snapshot, supported, active, request, n + 1);
        lemma_consistent(run, config, rules, snapshot, supported, active, request, n);
        let event = run.events[n];
        assert(takes(
            config,
            rules,
            snapshot,
            run.rollouts[n],
            event,
            run.rollouts[n + 1],
            run.histories[n],
            run.histories[n + 1],
        ));
    }
}

/// A request for one list that succeeds without the table having to be set up leaves the other list
/// in force exactly as it was: the rules look at the same generation of its sets, and these hold what
/// they held. So from then on a packet is dropped exactly where a mapping covers it, by the new
/// content of the one list and the old content of the other.
pub proof fn law_a_single_request_keeps_the_other_list(
    run: Run,
    config: Config,
    zones: Zones,
    rules: Seq<RenderedRule>,
    protected: Seq<String>,
    snapshot: Snapshot,
    lists: Snapshot,
    supported: bool,
    active: Active,
    direction: Direction,
    other: Direction,
    inbound: Seq<AddressPrefix>,
    outbound: Seq<AddressPrefix>,
    packet: Packet,
)
    requires
        crate::zones::zones_wf(zones.zones()),
        crate::daemon::planned(config, zones, rules, protected),
        direction != other,
        crate::config::on_some_chain(config.rules, direction),
        crate::config::on_some_chain(config.rules, other),
        run.wf(config, rules, snapshot),
        run.rollouts[0].begun(config, Some(direction), supported, active),
        run.succeeded(),
        forall|i: int|
            0 <= i < run.rollouts.len() ==> !((#[trigger] run.rollouts[i]).stage is SettingUp),
        crate::policy::enforces(run.histories[0], rules, active),
        active.generation(other) is Some,
        crate::policy::holds(
            run.histories[0],
            other,
            active.generation(other)->0,
            lists.list(other),
        ),
        lists.list(direction) == snapshot.list(direction),
        lists.inbound.lists(inbound),
        lists.outbound.lists(outbound),
        packet.wf(),
    ensures
        run.rollouts.last().active.generation(other) == active.generation(other),
        crate::policy::holds(
            run.histories.last(),
            other,
            active.generation(other)->0,
            lists.list(other),
        ),
        crate::policy::drops(run.histories.last(), packet) <==> is_covered(
            config,
            zones.zones(),
            packet,
            inbound,
            outbound,
        ),
{
    let history = run.histories.last();
    let last = run.rollouts.last();
    let generation = active.generation(other)->0;
    lemma_planned_lists(config, zones, rules, protected, other);
    let k = choose|k: int| 0 <= k < rules.len() && (#[trigger] rules[k]).direction == other;
    assert forall|i: int| 0 <= i < run.rollouts.len() implies !((
    #[trigger] run.rollouts[i]).stage is SettingUp) && run.rollouts[i].failure is None by {
        lemma_failures_stay(run, config, rules, snapshot, supported, active, Some(direction), i);
    }
    let kept = lemma_others_kept(
        run,
        config,
        rules,
        snapshot,
        supported,
        active,
        direction,
        other,
        generation,
        k,
        run.events.len() as int,
    );
    assert(crate::policy::holds(history, other, generation, lists.list(other))) by {
        assert forall|v6: bool|
            crate::policy::content(
                history,
                #[trigger] crate::batch::set_of(other, v6, generation),
            ) == crate::batch::all_boundaries(
                crate::batch::family_of(lists.list(other), v6),
            ) by {
            let set = crate::batch::set_of(other, v6, generation);
            assert(crate::policy::content(history, set) == crate::policy::content(
                run.histories[0],
                set,
            ));
        }
    }
    let known = lemma_ended(
        run,
        config,
        zones,
        rules,
        protected,
        snapshot,
        supported,
        active,
        Some(direction),
    );
    assert(done(last, config, Some(direction), direction));
    assert(crate::policy::enforces(history, rules, known));
    lemma_planned_lists(config, zones, rules, protected, direction);
    lemma_same_generations(history, rules, known, kept, other, k);
    assert forall|d: Direction| (#[trigger] known.generation(d)) is Some implies
        crate::policy::holds(history, d, known.generation(d)->0, lists.list(d)) by {
        if d != direction {
            assert(d == other);
        }
    }
    crate::policy::lemma_enforced_rules_drop(
        history,
        rules,
        known,
        lists,
        inbound,
        outbound,
        packet,
    );
    law_rules_apply_where_mappings_cover(
        config,
        zones,
        rules,
        protected,
        inbound,
        outbound,
        packet,
    );
    if crate::policy::listed(rules, packet, inbound, outbound) {
        let n = choose|n: int|
            0 <= n < rules.len() && crate::policy::rule_applies(
                #[trigger] rules[n],
                packet,
                crate::policy::entries(inbound, outbound, rules[n].direction),
            );
        if rules[n].direction != direction {
            assert(rules[n].direction == other);
        }
        assert(known.generation(rules[n].direction) is Some);
    }
}

/// The rules in a table look at one generation of a list.
proof fn lemma_same_generations(
    history: Seq<Step>,
    rules: Seq<RenderedRule>,
    a: Active,
    b: Active,
    direction: Direction,
    k: int,
)
    requires
        crate::policy::enforces(history, rules, a),
        crate::policy::enforces(history, rules, b),
        0 <= k < rules.len(),
        rules[k].direction == direction,
        b.generation(direction) is Some,
    ensures
        a.generation(direction) == b.generation(direction),
{
    let generation = b.generation(direction)->0;
    let chain = rules[k].chain;
    let set = crate::batch::set_of(direction, false, generation);
    let rule = crate::batch::expressions(rules[k], false, generation);
    assert(crate::policy::form_at(rules, b, chain, rule, k, false));
    assert(crate::policy::is_form(rules, b, chain, rule));
    assert(crate::policy::installed(history, chain).contains(rule));
    assert(rule[rule.len() - 2] == Expression::Lookup(set));
    assert(rule.contains(Expression::Lookup(set)));
    assert(crate::policy::referenced(history, set));
    lemma_enforced_references(history, rules, a, set);
}

/// Beginning a request for the whole table makes every list due that some mapping names; beginning
/// one for a single list makes that list due alone.
pub proof fn law_begun_requests_have_their_lists_due(
    config: &Config,
    request: Option<Direction>,
    supported: bool,
    active: Active,
    r: (Rollout, crate::rollout::Action),
    direction: Direction,
)
    requires
        call_ensures(Rollout::new, (config, request, supported, active), r),
    ensures
        request is None ==> (r.0.pends(direction) <==> crate::config::on_some_chain(
            config.rules,
            direction,
        )),
        request is Some ==> (r.0.pends(direction) <==> request == Some(direction)),
        r.0.active == active,
{
    crate::config::law_any_chain_makes_a_list_used(config.rules, direction);
}

} // verus!
