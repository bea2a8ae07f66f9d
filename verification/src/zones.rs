//! Zones: names for groups of interfaces.
use crate::config::Direction;
use crate::config::RuleMapping;
use crate::config::Rules;
use crate::text::has_nul;
use crate::text::insert_ascending;
use crate::text::quoted;
use vstd::prelude::*;
use vstd::string::*;

verus! {

/// Where in the packet path a rule applies.
#[derive(Debug, Clone, Copy, PartialEq, Eq, Structural)]
pub enum Chain {
    Input,
    Forward,
    Output,
}

/// A mapping whose zones have become interfaces.
#[derive(Debug, Clone, PartialEq, Eq)]
pub struct ResolvedRule {
    pub chain: Chain,
    pub blocklist: Direction,
    pub ingress: Vec<String>,
    pub egress: Vec<String>,
}

/// What a zone document gives under a name: the interfaces alone, or with a mark for local zones.
#[derive(Debug, Clone)]
pub enum ZoneValue {
    Interfaces(Vec<String>),
    Detail { interfaces: Vec<String>, local: bool },
}

/// A zone as a document lists it.
#[derive(Debug, Clone)]
pub struct ZoneEntry {
    pub name: String,
    pub interfaces: Vec<String>,
    pub local: bool,
}

/// A group of interfaces. A local zone stands for the host itself and may have none.
#[derive(Debug, Clone)]
pub struct Zone {
    pub name: String,
    pub interfaces: Vec<String>,
    pub local: bool,
}

/// The zones, each under a name of its own.
#[derive(Debug, Clone)]
pub struct Zones {
    zones: Vec<Zone>,
}

/// Why zones or the mappings that name them are refused.
#[derive(Debug, Clone, PartialEq, Eq)]
pub enum ZoneError {
    EmptyName,
    NoInterfaces { zone: String },
    InvalidInterface { zone: String },
    Duplicate { zone: String },
    Unknown { zone: String },
    LocalForward { zone: String },
    InputEgress,
    OutputIngress,
    ForwardIncomplete,
}

/// Why zones or mappings are refused, over mathematical values.
pub enum ZoneFault {
    EmptyName,
    NoInterfaces { zone: Seq<char> },
    InvalidInterface { zone: Seq<char> },
    Duplicate { zone: Seq<char> },
    Unknown { zone: Seq<char> },
    LocalForward { zone: Seq<char> },
    InputEgress,
    OutputIngress,
    ForwardIncomplete,
}

impl ZoneFault {
    /// The message that tells a user what is wrong.
    pub open spec fn message(self) -> Seq<char> {
        match self {
            ZoneFault::EmptyName => "zone has an empty name"@,
            ZoneFault::NoInterfaces { zone } => "non-local zone "@ + crate::text::quoted_text(zone)
                + " has no interfaces"@,
            ZoneFault::InvalidInterface { zone } => "zone "@ + crate::text::quoted_text(zone)
                + " has an invalid interface"@,
            ZoneFault::Duplicate { zone } => "duplicate zone "@ + crate::text::quoted_text(zone),
            ZoneFault::Unknown { zone } => "unknown zone "@ + crate::text::quoted_text(zone),
            ZoneFault::LocalForward { zone } => "local zone "@ + crate::text::quoted_text(zone)
                + " cannot be used as a forward interface"@,
            ZoneFault::InputEgress => "input rule cannot have egress_zones"@,
            ZoneFault::OutputIngress => "output rule cannot have ingress_zones"@,
            ZoneFault::ForwardIncomplete => "forward rule requires ingress_zones and egress_zones"@,
        }
    }
}

impl ZoneError {
    pub open spec fn fault(self) -> ZoneFault {
        match self {
            ZoneError::EmptyName => ZoneFault::EmptyName,
            ZoneError::NoInterfaces { zone } => ZoneFault::NoInterfaces { zone: zone@ },
            ZoneError::InvalidInterface { zone } => ZoneFault::InvalidInterface { zone: zone@ },
            ZoneError::Duplicate { zone } => ZoneFault::Duplicate { zone: zone@ },
            ZoneError::Unknown { zone } => ZoneFault::Unknown { zone: zone@ },
            ZoneError::LocalForward { zone } => ZoneFault::LocalForward { zone: zone@ },
            ZoneError::InputEgress => ZoneFault::InputEgress,
            ZoneError::OutputIngress => ZoneFault::OutputIngress,
            ZoneError::ForwardIncomplete => ZoneFault::ForwardIncomplete,
        }
    }

    /// The message that tells a user what is wrong.
    pub fn message(&self) -> (r: String)
        ensures
            r@ == self.fault().message(),
    {
        match self {
            ZoneError::EmptyName => String::from_str("zone has an empty name"),
            ZoneError::NoInterfaces { zone } => String::from_str("non-local zone ").concat(
                quoted(zone.as_str()).as_str(),
            ).concat(" has no interfaces"),
            ZoneError::InvalidInterface { zone } => String::from_str("zone ").concat(
                quoted(zone.as_str()).as_str(),
            ).concat(" has an invalid interface"),
            ZoneError::Duplicate { zone } => String::from_str("duplicate zone ").concat(
                quoted(zone.as_str()).as_str(),
            ),
            ZoneError::Unknown { zone } => String::from_str("unknown zone ").concat(
                quoted(zone.as_str()).as_str(),
            ),
            ZoneError::LocalForward { zone } => String::from_str("local zone ").concat(
                quoted(zone.as_str()).as_str(),
            ).concat(" cannot be used as a forward interface"),
            ZoneError::InputEgress => String::from_str("input rule cannot have egress_zones"),
            ZoneError::OutputIngress => String::from_str("output rule cannot have ingress_zones"),
            ZoneError::ForwardIncomplete => String::from_str(
                "forward rule requires ingress_zones and egress_zones",
            ),
        }
    }
}

/// The zone of the host itself has this name, in any case.
pub open spec fn is_local_name(name: Seq<char>) -> bool {
    crate::text::same_ignoring_ascii_case(name, "LOCAL"@)
}

/// The kernel cannot have an interface of this name: it is empty or holds a NUL byte.
pub open spec fn invalid_interface(name: Seq<char>) -> bool {
    name.len() == 0 || crate::text::holds_nul(name)
}

/// The zone that a listed entry stands for.
pub open spec fn zone_of(entry: ZoneEntry) -> Zone {
    Zone {
        name: entry.name,
        interfaces: entry.interfaces,
        local: entry.local || is_local_name(entry.name@),
    }
}

/// The zone with this name.
pub open spec fn named(zones: Seq<Zone>, name: Seq<char>) -> Option<Zone>
    decreases zones.len(),
{
    if zones.len() == 0 {
        None
    } else if zones.first().name@ == name {
        Some(zones.first())
    } else {
        named(zones.drop_first(), name)
    }
}

/// Why an entry cannot join the zones so far, if it cannot.
pub open spec fn entry_fault(zones: Seq<Zone>, entry: ZoneEntry) -> Option<ZoneFault> {
    if crate::text::trimmed(entry.name@).len() == 0 {
        Some(ZoneFault::EmptyName)
    } else if !zone_of(entry).local && entry.interfaces@.len() == 0 {
        Some(ZoneFault::NoInterfaces { zone: entry.name@ })
    } else if has_invalid_interface(entry.interfaces@) {
        Some(ZoneFault::InvalidInterface { zone: entry.name@ })
    } else if named(zones, entry.name@) is Some {
        Some(ZoneFault::Duplicate { zone: entry.name@ })
    } else {
        None
    }
}

pub open spec fn has_invalid_interface(interfaces: Seq<String>) -> bool {
    exists|i: int| 0 <= i < interfaces.len() && invalid_interface((#[trigger] interfaces[i])@)
}

/// What listing the entries in order amounts to: the zones up to the first refused entry, and why
/// it was refused.
pub struct Listing {
    pub zones: Seq<Zone>,
    pub fault: Option<ZoneFault>,
}

pub open spec fn listing(entries: Seq<ZoneEntry>) -> Listing
    decreases entries.len(),
{
    if entries.len() == 0 {
        Listing { zones: Seq::empty(), fault: None }
    } else {
        let before = listing(entries.drop_last());
        if before.fault is Some {
            before
        } else {
            match entry_fault(before.zones, entries.last()) {
                Some(fault) => Listing { zones: before.zones, fault: Some(fault) },
                None => Listing { zones: before.zones.push(zone_of(entries.last())), fault: None },
            }
        }
    }
}

/// The entry for a name in a zone document.
pub open spec fn entry_of(name: String, value: ZoneValue) -> ZoneEntry {
    match value {
        ZoneValue::Interfaces(interfaces) => ZoneEntry {
            name,
            interfaces,
            local: is_local_name(name@),
        },
        ZoneValue::Detail { interfaces, local } => ZoneEntry { name, interfaces, local },
    }
}

pub open spec fn entries_of(map: Seq<(String, ZoneValue)>) -> Seq<ZoneEntry> {
    map.map_values(|e: (String, ZoneValue)| entry_of(e.0, e.1))
}

/// Every zone has a name of its own that is not blank, valid interfaces, and at least one of them
/// unless it is local.
pub open spec fn zones_wf(zones: Seq<Zone>) -> bool {
    &&& forall|i: int, j: int|
        0 <= i < j < zones.len() ==> (#[trigger] zones[i]).name@ != (#[trigger] zones[j]).name@
    &&& forall|i: int| 0 <= i < zones.len() ==> zone_wf(#[trigger] zones[i])
}

pub open spec fn zone_wf(zone: Zone) -> bool {
    &&& crate::text::trimmed(zone.name@).len() > 0
    &&& zone.local || zone.interfaces@.len() > 0
    &&& is_local_name(zone.name@) ==> zone.local
    &&& !has_invalid_interface(zone.interfaces@)
}

proof fn lemma_named_none(zones: Seq<Zone>, name: Seq<char>)
    ensures
        named(zones, name) is None <==> forall|i: int|
            0 <= i < zones.len() ==> (#[trigger] zones[i]).name@ != name,
    decreases zones.len(),
{
    if zones.len() > 0 {
        let rest = zones.drop_first();
        lemma_named_none(rest, name);
        if named(zones, name) is None {
            assert forall|i: int| 0 <= i < zones.len() implies (#[trigger] zones[i]).name@
                != name by {
                if i > 0 {
                    assert(rest[i - 1] == zones[i]);
                }
            }
        }
        if forall|i: int| 0 <= i < zones.len() ==> (#[trigger] zones[i]).name@ != name {
            assert forall|i: int| 0 <= i < rest.len() implies (#[trigger] rest[i]).name@
                != name by {
                assert(rest[i] == zones[i + 1]);
            }
        }
    }
}

proof fn lemma_named_member(zones: Seq<Zone>, name: Seq<char>)
    requires
        named(zones, name) is Some,
    ensures
        named(zones, name)->0.name@ == name,
        zones.contains(named(zones, name)->0),
    decreases zones.len(),
{
    if zones.first().name@ != name {
        lemma_named_member(zones.drop_first(), name);
        let zone = named(zones, name)->0;
        let i = choose|i: int| 0 <= i < zones.len() - 1 && zones.drop_first()[i] == zone;
        assert(zones[i + 1] == zone);
    } else {
        assert(zones[0] == zones.first());
    }
}

/// The zones of a document that is accepted have names of their own, valid interfaces, and at
/// least one interface unless they are local.
pub proof fn law_listed_zones_are_wf(entries: Seq<ZoneEntry>)
    ensures
        zones_wf(listing(entries).zones),
    decreases entries.len(),
{
    if entries.len() > 0 {
        law_listed_zones_are_wf(entries.drop_last());
        let before = listing(entries.drop_last());
        let all = listing(entries).zones;
        if all.len() > before.zones.len() {
            let zone = zone_of(entries.last());
            lemma_named_none(before.zones, zone.name@);
            assert forall|i: int, j: int| 0 <= i < j < all.len() implies (
            #[trigger] all[i]).name@ != (#[trigger] all[j]).name@ by {
                assert(all[i] == before.zones[i]);
                if j < before.zones.len() {
                    assert(all[j] == before.zones[j]);
                }
            }
            assert forall|i: int| 0 <= i < all.len() implies zone_wf(#[trigger] all[i]) by {
                if i < before.zones.len() {
                    assert(all[i] == before.zones[i]);
                }
            }
        }
    }
}

/// Why a zone name cannot be used, if it cannot.
pub open spec fn name_fault(zones: Seq<Zone>, name: Seq<char>, forward: bool) -> Option<ZoneFault> {
    match named(zones, name) {
        None => Some(ZoneFault::Unknown { zone: name }),
        Some(zone) => if forward && zone.local {
            Some(ZoneFault::LocalForward { zone: name })
        } else {
            None
        },
    }
}

/// The first fault of a list of zone names.
pub open spec fn names_fault(zones: Seq<Zone>, names: Seq<String>, forward: bool) -> Option<
    ZoneFault,
>
    decreases names.len(),
{
    if names.len() == 0 {
        None
    } else {
        match names_fault(zones, names.drop_last(), forward) {
            Some(fault) => Some(fault),
            None => name_fault(zones, names.last()@, forward),
        }
    }
}

/// The interface belongs to a zone with this name.
pub open spec fn in_zone(zones: Seq<Zone>, name: Seq<char>, interface: Seq<char>) -> bool {
    named(zones, name) matches Some(zone) && crate::text::has_text(zone.interfaces@, interface)
}

/// The interface belongs to one of the named zones.
pub open spec fn in_zones(zones: Seq<Zone>, names: Seq<String>, interface: Seq<char>) -> bool {
    exists|k: int| 0 <= k < names.len() && in_zone(zones, (#[trigger] names[k])@, interface)
}

/// The list is the interfaces of the named zones: sorted, each once.
pub open spec fn expands(zones: Seq<Zone>, names: Seq<String>, interfaces: Seq<String>) -> bool {
    &&& crate::text::ascending(interfaces)
    &&& forall|t: Seq<char>| #[trigger]
        crate::text::has_text(interfaces, t) <==> in_zones(zones, names, t)
}

/// The zones that a mapping names do not suit its chain.
pub open spec fn shape_fault(chain: Chain, rule: RuleMapping) -> Option<ZoneFault> {
    match chain {
        Chain::Input => if rule.egress_zones@.len() > 0 {
            Some(ZoneFault::InputEgress)
        } else {
            None
        },
        Chain::Output => if rule.ingress_zones@.len() > 0 {
            Some(ZoneFault::OutputIngress)
        } else {
            None
        },
        Chain::Forward => if rule.ingress_zones@.len() == 0 || rule.egress_zones@.len() == 0 {
            Some(ZoneFault::ForwardIncomplete)
        } else {
            None
        },
    }
}

/// Why a mapping is refused, if it is.
pub open spec fn rule_fault(zones: Seq<Zone>, chain: Chain, rule: RuleMapping) -> Option<
    ZoneFault,
> {
    let forward = chain == Chain::Forward;
    if shape_fault(chain, rule) is Some {
        shape_fault(chain, rule)
    } else if names_fault(zones, rule.ingress_zones@, forward) is Some {
        names_fault(zones, rule.ingress_zones@, forward)
    } else {
        names_fault(zones, rule.egress_zones@, forward)
    }
}

/// The mapping with its zones replaced by their interfaces.
pub open spec fn resolves(
    zones: Seq<Zone>,
    chain: Chain,
    rule: RuleMapping,
    resolved: ResolvedRule,
) -> bool {
    &&& resolved.chain == chain
    &&& resolved.blocklist == rule.blocklist
    &&& expands(zones, rule.ingress_zones@, resolved.ingress@)
    &&& expands(zones, rule.egress_zones@, resolved.egress@)
}

/// All mappings: input, then forward, then output.
pub open spec fn mappings(rules: Rules) -> Seq<(Chain, RuleMapping)> {
    on_chain(Chain::Input, rules.input@) + on_chain(Chain::Forward, rules.forward@) + on_chain(
        Chain::Output,
        rules.output@,
    )
}

pub open spec fn on_chain(chain: Chain, rules: Seq<RuleMapping>) -> Seq<(Chain, RuleMapping)> {
    rules.map_values(|rule: RuleMapping| (chain, rule))
}

/// The first fault of the mappings.
pub open spec fn mappings_fault(zones: Seq<Zone>, rules: Seq<(Chain, RuleMapping)>) -> Option<
    ZoneFault,
>
    decreases rules.len(),
{
    if rules.len() == 0 {
        None
    } else {
        match mappings_fault(zones, rules.drop_last()) {
            Some(fault) => Some(fault),
            None => rule_fault(zones, rules.last().0, rules.last().1),
        }
    }
}

/// The mappings, one by one, with their zones replaced by their interfaces.
pub open spec fn all_resolve(
    zones: Seq<Zone>,
    rules: Seq<(Chain, RuleMapping)>,
    resolved: Seq<ResolvedRule>,
) -> bool {
    &&& rules.len() == resolved.len()
    &&& forall|k: int|
        0 <= k < rules.len() ==> resolves(zones, rules[k].0, rules[k].1, #[trigger] resolved[k])
}

proof fn lemma_names_fault_none(zones: Seq<Zone>, names: Seq<String>, forward: bool, k: int)
    requires
        names_fault(zones, names, forward) is None,
        0 <= k < names.len(),
    ensures
        name_fault(zones, names[k]@, forward) is None,
    decreases names.len(),
{
    if k < names.len() - 1 {
        lemma_names_fault_none(zones, names.drop_last(), forward, k);
    }
}

/// Zones that are not local have interfaces, so a list of them expands to at least one interface.
proof fn lemma_expansion_not_empty(zones: Seq<Zone>, names: Seq<String>, interfaces: Seq<String>)
    requires
        zones_wf(zones),
        names_fault(zones, names, true) is None,
        names.len() > 0,
        expands(zones, names, interfaces),
    ensures
        interfaces.len() > 0,
{
    lemma_names_fault_none(zones, names, true, 0);
    let zone = named(zones, names[0]@)->0;
    lemma_named_member(zones, names[0]@);
    let i = choose|i: int| 0 <= i < zones.len() && zones[i] == zone;
    assert(zone_wf(zones[i]));
    let first = zone.interfaces@[0]@;
    assert(crate::text::has_text(zone.interfaces@, first));
    assert(in_zone(zones, names[0]@, first));
    assert(crate::text::has_text(interfaces, first));
}

/// A forward mapping that is accepted constrains both sides: it never applies to every interface.
pub proof fn law_forward_is_constrained(
    zones: Seq<Zone>,
    rule: RuleMapping,
    resolved: ResolvedRule,
)
    requires
        zones_wf(zones),
        rule_fault(zones, Chain::Forward, rule) is None,
        resolves(zones, Chain::Forward, rule, resolved),
    ensures
        resolved.ingress@.len() > 0,
        resolved.egress@.len() > 0,
{
    lemma_expansion_not_empty(zones, rule.ingress_zones@, resolved.ingress@);
    lemma_expansion_not_empty(zones, rule.egress_zones@, resolved.egress@);
}

/// An accepted input mapping has no egress interfaces, an accepted output mapping no ingress
/// interfaces.
pub proof fn law_chains_use_their_side(
    zones: Seq<Zone>,
    chain: Chain,
    rule: RuleMapping,
    resolved: ResolvedRule,
)
    requires
        rule_fault(zones, chain, rule) is None,
        resolves(zones, chain, rule, resolved),
    ensures
        chain == Chain::Input ==> resolved.egress@.len() == 0,
        chain == Chain::Output ==> resolved.ingress@.len() == 0,
{
    if resolved.egress@.len() > 0 {
        assert(crate::text::has_text(resolved.egress@, resolved.egress@[0]@));
    }
    if resolved.ingress@.len() > 0 {
        assert(crate::text::has_text(resolved.ingress@, resolved.ingress@[0]@));
    }
}

/// A local zone is never part of an accepted forward mapping.
pub proof fn law_forward_excludes_local(zones: Seq<Zone>, rule: RuleMapping, name: Seq<char>)
    requires
        rule_fault(zones, Chain::Forward, rule) is None,
        crate::text::has_text(rule.ingress_zones@, name) || crate::text::has_text(
            rule.egress_zones@,
            name,
        ),
    ensures
        named(zones, name) matches Some(zone) && !zone.local,
{
    if crate::text::has_text(rule.ingress_zones@, name) {
        let k = choose|k: int|
            0 <= k < rule.ingress_zones@.len() && (#[trigger] rule.ingress_zones@[k])@ == name;
        lemma_names_fault_none(zones, rule.ingress_zones@, true, k);
    } else {
        let k = choose|k: int|
            0 <= k < rule.egress_zones@.len() && (#[trigger] rule.egress_zones@[k])@ == name;
        lemma_names_fault_none(zones, rule.egress_zones@, true, k);
    }
}

fn is_invalid_interface(name: &String) -> (r: bool)
    ensures
        r == invalid_interface(name@),
{
    name.as_str().is_empty() || has_nul(name.as_str())
}

fn any_invalid_interface(interfaces: &Vec<String>) -> (r: bool)
    ensures
        r == has_invalid_interface(interfaces@),
{
    let mut i: usize = 0;
    while i < interfaces.len()
        invariant
            i <= interfaces@.len(),
            forall|k: int| 0 <= k < i ==> !invalid_interface((#[trigger] interfaces@[k])@),
        decreases interfaces@.len() - i,
    {
        if is_invalid_interface(&interfaces[i]) {
            assert(invalid_interface(interfaces@[i as int]@));
            return true;
        }
        i = i + 1;
    }
    false
}

fn find<'a>(zones: &'a Vec<Zone>, name: &String) -> (r: Option<&'a Zone>)
    ensures
        r is Some <==> named(zones@, name@) is Some,
        r matches Some(zone) ==> named(zones@, name@) == Some(*zone),
{
    let mut i: usize = 0;
    assert(zones@.skip(0) =~= zones@);
    while i < zones.len()
        invariant
            i <= zones@.len(),
            named(zones@, name@) == named(zones@.skip(i as int), name@),
        decreases zones@.len() - i,
    {
        if zones[i].name == *name {
            return Some(&zones[i]);
        }
        proof {
            assert(zones@.skip(i as int).drop_first() =~= zones@.skip(i + 1));
        }
        i = i + 1;
    }
    None
}

impl Zones {
    pub closed spec fn zones(self) -> Seq<Zone> {
        self.zones@
    }

    /// The zones of a document that maps names to interfaces.
    pub fn from_map(map: Vec<(String, ZoneValue)>) -> (r: Result<Zones, ZoneError>)
        ensures
            match r {
                Ok(zones) => listing(entries_of(map@)).fault is None && zones.zones() == listing(
                    entries_of(map@),
                ).zones && zones_wf(zones.zones()),
                Err(error) => listing(entries_of(map@)).fault == Some(error.fault()),
            },
    {
        let ghost source = map@;
        let mut entries: Vec<ZoneEntry> = Vec::new();
        for item in it: map
            invariant
                it.seq() == source,
                entries@ == entries_of(source).take(it.index()),
        {
            let ghost i = it.index();
            let (name, value) = item;
            let entry = match value {
                ZoneValue::Interfaces(interfaces) => ZoneEntry {
                    local: name.as_str().eq_ignore_ascii_case("LOCAL"),
                    name,
                    interfaces,
                },
                ZoneValue::Detail { interfaces, local } => ZoneEntry { name, interfaces, local },
            };
            entries.push(entry);
            proof {
                let all = entries_of(source);
                assert(all[i] == entry);
                assert(all.take(i + 1) =~= all.take(i).push(entry));
            }
        }
        proof {
            assert(entries_of(source).take(source.len() as int) =~= entries_of(source));
        }
        Self::from_entries(entries)
    }

    /// The zones of a document that lists entries.
    pub fn from_entries(entries: Vec<ZoneEntry>) -> (r: Result<Zones, ZoneError>)
        ensures
            match r {
                Ok(zones) => listing(entries@).fault is None && zones.zones() == listing(
                    entries@,
                ).zones && zones_wf(zones.zones()),
                Err(error) => listing(entries@).fault == Some(error.fault()),
            },
    {
        let ghost source = entries@;
        let mut zones: Vec<Zone> = Vec::new();
        proof {
            assert(source.take(0) =~= Seq::empty());
        }
        for entry in it: entries
            invariant
                it.seq() == source,
                listing(source.take(it.index())).fault is None,
                zones@ == listing(source.take(it.index())).zones,
        {
            let ghost i = it.index();
            proof {
                assert(source.take(i + 1).drop_last() =~= source.take(i));
                assert(source.take(i + 1).last() == entry);
            }
            let local: bool = entry.local || entry.name.as_str().eq_ignore_ascii_case("LOCAL");
            let error = if entry.name.as_str().trim().is_empty() {
                Some(ZoneError::EmptyName)
            } else if !local && entry.interfaces.len() == 0 {
                Some(ZoneError::NoInterfaces { zone: entry.name.clone() })
            } else if any_invalid_interface(&entry.interfaces) {
                Some(ZoneError::InvalidInterface { zone: entry.name.clone() })
            } else if find(&zones, &entry.name).is_some() {
                Some(ZoneError::Duplicate { zone: entry.name.clone() })
            } else {
                None
            };
            match error {
                Some(error) => {
                    proof {
                        lemma_listing_stops(source, i + 1);
                    }
                    return Err(error);
                },
                None => {},
            }
            zones.push(Zone { name: entry.name, interfaces: entry.interfaces, local });
        }
        proof {
            assert(source.take(source.len() as int) =~= source);
            law_listed_zones_are_wf(source);
        }
        Ok(Zones { zones })
    }

    /// The interfaces of the named zones.
    pub fn interfaces(&self, names: &Vec<String>) -> (r: Result<Vec<String>, ZoneError>)
        ensures
            match r {
                Ok(interfaces) => names_fault(self.zones(), names@, false) is None && expands(
                    self.zones(),
                    names@,
                    interfaces@,
                ),
                Err(error) => names_fault(self.zones(), names@, false) == Some(error.fault()),
            },
    {
        self.expand(names, false)
    }

    /// The mappings with their zones replaced by interfaces.
    pub fn resolve(&self, rules: &Rules) -> (r: Result<Vec<ResolvedRule>, ZoneError>)
        ensures
            match r {
                Ok(resolved) => mappings_fault(self.zones(), mappings(*rules)) is None
                    && all_resolve(self.zones(), mappings(*rules), resolved@),
                Err(error) => mappings_fault(self.zones(), mappings(*rules)) == Some(
                    error.fault(),
                ),
            },
    {
        let mut result: Vec<ResolvedRule> = Vec::new();
        let ghost input = on_chain(Chain::Input, rules.input@);
        let ghost forward = on_chain(Chain::Forward, rules.forward@);
        let ghost output = on_chain(Chain::Output, rules.output@);
        let ghost all = mappings(*rules);
        proof {
            assert(all.take(0) =~= Seq::empty());
            assert(all.take(input.len() as int) =~= all.take(0) + input);
            assert(all.take((input.len() + forward.len()) as int) =~= all.take(input.len() as int)
                + forward);
            assert(all =~= all.take((input.len() + forward.len()) as int) + output);
            assert(all.take(all.len() as int) =~= all);
        }
        match self.resolve_chain(Chain::Input, &rules.input, &mut result, Ghost(all.take(0))) {
            Err(error) => {
                proof {
                    lemma_mappings_fault_stays(self.zones(), all, input.len() as int);
                }
                return Err(error);
            },
            Ok(()) => {},
        }
        match self.resolve_chain(
            Chain::Forward,
            &rules.forward,
            &mut result,
            Ghost(all.take(input.len() as int)),
        ) {
            Err(error) => {
                proof {
                    lemma_mappings_fault_stays(
                        self.zones(),
                        all,
                        (input.len() + forward.len()) as int,
                    );
                }
                return Err(error);
            },
            Ok(()) => {},
        }
        match self.resolve_chain(
            Chain::Output,
            &rules.output,
            &mut result,
            Ghost(all.take((input.len() + forward.len()) as int)),
        ) {
            Err(error) => {
                return Err(error);
            },
            Ok(()) => {},
        }
        Ok(result)
    }

    /// Resolves the mappings of one chain after the mappings resolved so far.
    fn resolve_chain(
        &self,
        chain: Chain,
        rules: &Vec<RuleMapping>,
        result: &mut Vec<ResolvedRule>,
        Ghost(before): Ghost<Seq<(Chain, RuleMapping)>>,
    ) -> (r: Result<(), ZoneError>)
        requires
            mappings_fault(self.zones(), before) is None,
            all_resolve(self.zones(), before, old(result)@),
        ensures
            match r {
                Ok(()) => mappings_fault(self.zones(), before + on_chain(chain, rules@)) is None
                    && all_resolve(
                    self.zones(),
                    before + on_chain(chain, rules@),
                    final(result)@,
                ),
                Err(error) => mappings_fault(self.zones(), before + on_chain(chain, rules@))
                    == Some(error.fault()),
            },
    {
        let ghost all = before + on_chain(chain, rules@);
        let mut i: usize = 0;
        proof {
            assert(all.take(before.len() as int) =~= before);
        }
        while i < rules.len()
            invariant
                i <= rules@.len(),
                all == before + on_chain(chain, rules@),
                mappings_fault(self.zones(), all.take(before.len() + i)) is None,
                all_resolve(self.zones(), all.take(before.len() + i), result@),
            decreases rules@.len() - i,
        {
            let ghost n = before.len() + i;
            proof {
                assert(all.take(n + 1).drop_last() =~= all.take(n));
                assert(all.take(n + 1).last() == (chain, rules@[i as int]));
            }
            match self.resolve_one(chain, &rules[i]) {
                Err(error) => {
                    proof {
                        lemma_mappings_fault_stays(self.zones(), all, n + 1);
                    }
                    return Err(error);
                },
                Ok(resolved) => {
                    let ghost old_result = result@;
                    result.push(resolved);
                    proof {
                        let rules_now = all.take(n + 1);
                        assert forall|k: int| 0 <= k < rules_now.len() implies resolves(
                            self.zones(),
                            rules_now[k].0,
                            rules_now[k].1,
                            #[trigger] result@[k],
                        ) by {
                            if k < n {
                                assert(result@[k] == old_result[k]);
                                assert(rules_now[k] == all.take(n)[k]);
                            }
                        }
                    }
                },
            }
            i = i + 1;
        }
        proof {
            assert(all.take(before.len() + i) =~= all);
        }
        Ok(())
    }

    /// One mapping with its zones replaced by interfaces.
    pub fn resolve_one(&self, chain: Chain, rule: &RuleMapping) -> (r: Result<
        ResolvedRule,
        ZoneError,
    >)
        ensures
            match r {
                Ok(resolved) => rule_fault(self.zones(), chain, *rule) is None && resolves(
                    self.zones(),
                    chain,
                    *rule,
                    resolved,
                ),
                Err(error) => rule_fault(self.zones(), chain, *rule) == Some(error.fault()),
            },
    {
        match chain {
            Chain::Input => {
                if rule.egress_zones.len() > 0 {
                    return Err(ZoneError::InputEgress);
                }
            },
            Chain::Output => {
                if rule.ingress_zones.len() > 0 {
                    return Err(ZoneError::OutputIngress);
                }
            },
            Chain::Forward => {
                if rule.ingress_zones.len() == 0 || rule.egress_zones.len() == 0 {
                    return Err(ZoneError::ForwardIncomplete);
                }
            },
        }
        let forward: bool = chain == Chain::Forward;
        let ingress = match self.expand(&rule.ingress_zones, forward) {
            Err(error) => {
                return Err(error);
            },
            Ok(ingress) => ingress,
        };
        let egress = match self.expand(&rule.egress_zones, forward) {
            Err(error) => {
                return Err(error);
            },
            Ok(egress) => egress,
        };
        Ok(ResolvedRule { chain, blocklist: rule.blocklist, ingress, egress })
    }

    /// The interfaces of the named zones; for a forward rule local zones are refused.
    pub fn expand(&self, names: &Vec<String>, forward: bool) -> (r: Result<Vec<String>, ZoneError>)
        ensures
            match r {
                Ok(interfaces) => names_fault(self.zones(), names@, forward) is None && expands(
                    self.zones(),
                    names@,
                    interfaces@,
                ),
                Err(error) => names_fault(self.zones(), names@, forward) == Some(error.fault()),
            },
    {
        let ghost zones = self.zones@;
        let mut interfaces: Vec<String> = Vec::new();
        let mut i: usize = 0;
        proof {
            assert(names@.take(0) =~= Seq::empty());
            assert forall|t: Seq<char>| #[trigger]
                crate::text::has_text(interfaces@, t) <==> in_zones(zones, names@.take(0), t) by {
            }
        }
        while i < names.len()
            invariant
                i <= names@.len(),
                zones == self.zones@,
                names_fault(zones, names@.take(i as int), forward) is None,
                expands(zones, names@.take(i as int), interfaces@),
            decreases names@.len() - i,
        {
            let ghost so_far = names@.take(i as int);
            proof {
                assert(names@.take(i + 1).drop_last() =~= so_far);
                assert(names@.take(i + 1).last() == names@[i as int]);
            }
            let zone = match find(&self.zones, &names[i]) {
                None => {
                    proof {
                        lemma_names_fault_stays(zones, names@, forward, i + 1);
                    }
                    return Err(ZoneError::Unknown { zone: names[i].clone() });
                },
                Some(zone) => zone,
            };
            if forward && zone.local {
                proof {
                    lemma_names_fault_stays(zones, names@, forward, i + 1);
                }
                return Err(ZoneError::LocalForward { zone: names[i].clone() });
            }
            let ghost before = interfaces@;
            let ghost members = zone.interfaces@;
            let mut k: usize = 0;
            while k < zone.interfaces.len()
                invariant
                    k <= zone.interfaces@.len(),
                    members == zone.interfaces@,
                    crate::text::ascending(interfaces@),
                    forall|t: Seq<char>| #[trigger]
                        crate::text::has_text(interfaces@, t) <==> crate::text::has_text(before, t)
                            || crate::text::has_text(members.take(k as int), t),
                decreases zone.interfaces@.len() - k,
            {
                let ghost earlier = interfaces@;
                insert_ascending(&mut interfaces, &zone.interfaces[k]);
                proof {
                    lemma_has_text_take(members, k as int);
                    assert forall|t: Seq<char>| #[trigger]
                        crate::text::has_text(interfaces@, t) <==> crate::text::has_text(before, t)
                            || crate::text::has_text(members.take(k + 1), t) by {
                        assert(crate::text::has_text(earlier, t) <==> crate::text::has_text(
                            before,
                            t,
                        ) || crate::text::has_text(members.take(k as int), t));
                    }
                }
                k = k + 1;
            }
            proof {
                assert(members.take(k as int) =~= members);
                let now = names@.take(i + 1);
                assert forall|t: Seq<char>| #[trigger]
                    crate::text::has_text(interfaces@, t) <==> in_zones(zones, now, t) by {
                    assert(crate::text::has_text(before, t) <==> in_zones(zones, so_far, t));
                    if in_zones(zones, so_far, t) {
                        let j = choose|j: int|
                            0 <= j < so_far.len() && in_zone(zones, (#[trigger] so_far[j])@, t);
                        assert(in_zone(zones, now[j]@, t));
                    }
                    if crate::text::has_text(members, t) {
                        assert(in_zone(zones, now[i as int]@, t));
                    }
                    if in_zones(zones, now, t) {
                        let j = choose|j: int|
                            0 <= j < now.len() && in_zone(zones, (#[trigger] now[j])@, t);
                        if j < i {
                            assert(in_zone(zones, so_far[j]@, t));
                        }
                    }
                }
            }
            i = i + 1;
        }
        proof {
            assert(names@.take(i as int) =~= names@);
        }
        Ok(interfaces)
    }
}

pub proof fn lemma_has_text_take(texts: Seq<String>, k: int)
    requires
        0 <= k < texts.len(),
    ensures
        forall|t: Seq<char>| #[trigger]
            crate::text::has_text(texts.take(k + 1), t) <==> crate::text::has_text(texts.take(k), t)
                || t == texts[k]@,
{
    let (a, b) = (texts.take(k), texts.take(k + 1));
    assert forall|t: Seq<char>| #[trigger]
        crate::text::has_text(b, t) <==> crate::text::has_text(a, t) || t == texts[k]@ by {
        if crate::text::has_text(b, t) {
            let i = choose|i: int| 0 <= i < b.len() && (#[trigger] b[i])@ == t;
            if i < k {
                assert(a[i]@ == t);
            }
        }
        if crate::text::has_text(a, t) {
            let i = choose|i: int| 0 <= i < a.len() && (#[trigger] a[i])@ == t;
            assert(b[i]@ == t);
        }
        if t == texts[k]@ {
            assert(b[k]@ == t);
        }
    }
}

proof fn lemma_names_fault_stays(zones: Seq<Zone>, names: Seq<String>, forward: bool, n: int)
    requires
        0 <= n <= names.len(),
        names_fault(zones, names.take(n), forward) is Some,
    ensures
        names_fault(zones, names, forward) == names_fault(zones, names.take(n), forward),
    decreases names.len() - n,
{
    if n < names.len() {
        assert(names.take(n + 1).drop_last() =~= names.take(n));
        lemma_names_fault_stays(zones, names, forward, n + 1);
    } else {
        assert(names.take(n) =~= names);
    }
}

proof fn lemma_mappings_fault_stays(zones: Seq<Zone>, rules: Seq<(Chain, RuleMapping)>, n: int)
    requires
        0 <= n <= rules.len(),
        mappings_fault(zones, rules.take(n)) is Some,
    ensures
        mappings_fault(zones, rules) == mappings_fault(zones, rules.take(n)),
    decreases rules.len() - n,
{
    if n < rules.len() {
        assert(rules.take(n + 1).drop_last() =~= rules.take(n));
        lemma_mappings_fault_stays(zones, rules, n + 1);
    } else {
        assert(rules.take(n) =~= rules);
    }
}

/// After a refused entry nothing more is listed.
proof fn lemma_listing_stops(entries: Seq<ZoneEntry>, n: int)
    requires
        0 <= n <= entries.len(),
        listing(entries.take(n)).fault is Some,
    ensures
        listing(entries) == listing(entries.take(n)),
    decreases entries.len() - n,
{
    if n < entries.len() {
        assert(entries.take(n + 1).drop_last() =~= entries.take(n));
        lemma_listing_stops(entries, n + 1);
    } else {
        assert(entries.take(n) =~= entries);
    }
}

/// Some zone of one of these names has the interface.
pub open spec fn belongs(zones: Seq<Zone>, names: Seq<String>, interface: Seq<char>) -> bool {
    exists|zone: Zone, name: String, member: String|
        #![trigger zones.contains(zone), names.contains(name), zone.interfaces@.contains(member)]
        zones.contains(zone) && names.contains(name) && zone.interfaces@.contains(member)
            && zone.name@ == name@ && member@ == interface
}

proof fn lemma_named_is(zones: Seq<Zone>, zone: Zone)
    requires
        zones_wf(zones),
        zones.contains(zone),
    ensures
        named(zones, zone.name@) == Some(zone),
{
    let i = choose|i: int| 0 <= i < zones.len() && zones[i] == zone;
    lemma_named_none(zones, zone.name@);
    lemma_named_member(zones, zone.name@);
    let found = named(zones, zone.name@)->0;
    let j = choose|j: int| 0 <= j < zones.len() && zones[j] == found;
    if i < j {
        assert(zones[i].name@ != zones[j].name@);
    } else if j < i {
        assert(zones[j].name@ != zones[i].name@);
    }
}

/// A zone name stands for the interfaces of the zone that has it, and for no others.
pub proof fn law_names_stand_for_their_zones(
    zones: Seq<Zone>,
    names: Seq<String>,
    interface: Seq<char>,
)
    requires
        zones_wf(zones),
    ensures
        in_zones(zones, names, interface) <==> belongs(zones, names, interface),
{
    if in_zones(zones, names, interface) {
        let k = choose|k: int|
            0 <= k < names.len() && in_zone(zones, (#[trigger] names[k])@, interface);
        let zone = named(zones, names[k]@)->0;
        lemma_named_member(zones, names[k]@);
        let m = choose|m: int|
            0 <= m < zone.interfaces@.len() && (#[trigger] zone.interfaces@[m])@ == interface;
        assert(names.contains(names[k]));
        assert(zone.interfaces@.contains(zone.interfaces@[m]));
    }
    if belongs(zones, names, interface) {
        let (zone, name, member) = choose|zone: Zone, name: String, member: String|
            #![trigger zones.contains(zone), names.contains(name), zone.interfaces@.contains(member)]
            zones.contains(zone) && names.contains(name) && zone.interfaces@.contains(member)
                && zone.name@ == name@ && member@ == interface;
        lemma_named_is(zones, zone);
        let m = choose|m: int|
            0 <= m < zone.interfaces@.len() && #[trigger] zone.interfaces@[m] == member;
        assert(crate::text::has_text(zone.interfaces@, interface));
        let k = choose|k: int| 0 <= k < names.len() && #[trigger] names[k] == name;
        assert(in_zone(zones, names[k]@, interface));
    }
}

/// The mappings of a chain.
pub open spec fn rules_on(rules: Rules, chain: Chain) -> Seq<RuleMapping> {
    match chain {
        Chain::Input => rules.input@,
        Chain::Forward => rules.forward@,
        Chain::Output => rules.output@,
    }
}

/// Every mapping of the configuration is resolved on the chain it is configured for, and no other
/// is.
pub proof fn law_mappings_keep_their_chains(rules: Rules, chain: Chain, rule: RuleMapping)
    ensures
        mappings(rules).contains((chain, rule)) <==> rules_on(rules, chain).contains(rule),
        mappings(rules).len() == rules.input@.len() + rules.forward@.len() + rules.output@.len(),
{
    let all = mappings(rules);
    let (n, m) = (rules.input@.len() as int, rules.forward@.len() as int);
    if all.contains((chain, rule)) {
        let k = choose|k: int| 0 <= k < all.len() && all[k] == (chain, rule);
        if k < n {
            assert(rules.input@[k] == rule);
        } else if k < n + m {
            assert(rules.forward@[k - n] == rule);
        } else {
            assert(rules.output@[k - n - m] == rule);
        }
    }
    if rules_on(rules, chain).contains(rule) {
        let list = rules_on(rules, chain);
        let k = choose|k: int| 0 <= k < list.len() && list[k] == rule;
        match chain {
            Chain::Input => {
                assert(all[k] == (chain, rule));
            },
            Chain::Forward => {
                assert(all[n + k] == (chain, rule));
            },
            Chain::Output => {
                assert(all[n + m + k] == (chain, rule));
            },
        }
    }
}

/// The entry can be a zone by itself: its name is not blank, it has an interface unless it is local,
/// and each of its interfaces has a name that the kernel can have.
pub open spec fn entry_stands(entry: ZoneEntry) -> bool {
    &&& crate::text::trimmed(entry.name@).len() > 0
    &&& entry.local || crate::text::same_ignoring_ascii_case(entry.name@, "LOCAL"@)
        || entry.interfaces@.len() > 0
    &&& forall|k: int|
        0 <= k < entry.interfaces@.len() ==> (#[trigger] entry.interfaces@[k])@.len() > 0
            && !entry.interfaces@[k]@.contains('\0')
}

/// Every entry can be a zone, and no two have the same name.
pub open spec fn entries_stand(entries: Seq<ZoneEntry>) -> bool {
    &&& forall|i: int| 0 <= i < entries.len() ==> entry_stands(#[trigger] entries[i])
    &&& forall|i: int, j: int|
        0 <= i < j < entries.len() ==> (#[trigger] entries[i]).name@ != (
        #[trigger] entries[j]).name@
}

/// The zone is the entry: it has the name and the interfaces of it, and is local where the entry
/// says so or where its name is that of the host.
pub open spec fn stands_for(zone: Zone, entry: ZoneEntry) -> bool {
    &&& zone.name@ == entry.name@
    &&& zone.interfaces == entry.interfaces
    &&& zone.local <==> entry.local || crate::text::same_ignoring_ascii_case(
        entry.name@,
        "LOCAL"@,
    )
}

proof fn lemma_invalid_interfaces(interfaces: Seq<String>)
    ensures
        !has_invalid_interface(interfaces) <==> forall|k: int|
            0 <= k < interfaces.len() ==> (#[trigger] interfaces[k])@.len() > 0
                && !interfaces[k]@.contains('\0'),
{
    assert forall|k: int| 0 <= k < interfaces.len() implies invalid_interface(
        (#[trigger] interfaces[k])@,
    ) == (interfaces[k]@.len() == 0 || interfaces[k]@.contains('\0')) by {
        crate::text::law_nul_is_a_character(interfaces[k]@);
    }
    if has_invalid_interface(interfaces) {
        let k = choose|k: int|
            0 <= k < interfaces.len() && invalid_interface((#[trigger] interfaces[k])@);
        assert(interfaces[k]@.len() == 0 || interfaces[k]@.contains('\0'));
    }
}

/// A document is accepted exactly where every entry of it can be a zone and no name comes twice. Its
/// zones are then its entries, one by one.
pub proof fn law_documents_are_accepted_whole(entries: Seq<ZoneEntry>)
    ensures
        listing(entries).fault is None <==> entries_stand(entries),
        listing(entries).fault is None ==> listing(entries).zones.len() == entries.len()
            && forall|i: int|
            0 <= i < entries.len() ==> stands_for(
                #[trigger] listing(entries).zones[i],
                entries[i],
            ),
    decreases entries.len(),
{
    if entries.len() > 0 {
        let before = entries.drop_last();
        let last = entries.last();
        let n = entries.len() - 1;
        law_documents_are_accepted_whole(before);
        lemma_invalid_interfaces(last.interfaces@);
        lemma_named_none(listing(before).zones, last.name@);
        if entries_stand(entries) {
            assert(entries_stand(before)) by {
                assert forall|i: int| 0 <= i < before.len() implies entry_stands(
                    #[trigger] before[i],
                ) by {
                    assert(before[i] == entries[i]);
                }
                assert forall|i: int, j: int| 0 <= i < j < before.len() implies (
                #[trigger] before[i]).name@ != (#[trigger] before[j]).name@ by {
                    assert(before[i] == entries[i] && before[j] == entries[j]);
                }
            }
            assert(entry_stands(entries[n]));
            assert forall|i: int| 0 <= i < listing(before).zones.len() implies (
            #[trigger] listing(before).zones[i]).name@ != last.name@ by {
                assert(stands_for(listing(before).zones[i], before[i]));
                assert(entries[i].name@ != entries[n].name@);
            }
        }
        if listing(entries).fault is None {
            let zones = listing(entries).zones;
            assert forall|i: int| 0 <= i < entries.len() implies stands_for(
                #[trigger] zones[i],
                entries[i],
            ) by {
                if i < n {
                    assert(zones[i] == listing(before).zones[i]);
                    assert(stands_for(listing(before).zones[i], before[i]));
                }
            }
            assert forall|i: int| 0 <= i < entries.len() implies entry_stands(
                #[trigger] entries[i],
            ) by {
                if i < n {
                    assert(entry_stands(before[i]));
                }
            }
            assert forall|i: int, j: int| 0 <= i < j < entries.len() implies (
            #[trigger] entries[i]).name@ != (#[trigger] entries[j]).name@ by {
                if j < n {
                    assert(before[i].name@ != before[j].name@);
                } else {
                    assert(stands_for(listing(before).zones[i], before[i]));
                    assert(listing(before).zones[i].name@ != last.name@);
                }
            }
        }
    }
}

/// The first entry that cannot be a zone beside those before it is what a document is refused for:
/// for a blank name, for want of interfaces, for an invalid interface, or for a name that is taken,
/// in this order.
pub proof fn law_the_first_bad_entry_is_named(entries: Seq<ZoneEntry>, entry: ZoneEntry)
    requires
        listing(entries).fault is None,
    ensures
        ({
            let local = entry.local || crate::text::same_ignoring_ascii_case(
                entry.name@,
                "LOCAL"@,
            );
            let fault = listing(entries.push(entry)).fault;
            if crate::text::trimmed(entry.name@).len() == 0 {
                fault == Some(ZoneFault::EmptyName)
            } else if !local && entry.interfaces@.len() == 0 {
                fault == Some(ZoneFault::NoInterfaces { zone: entry.name@ })
            } else if exists|k: int|
                0 <= k < entry.interfaces@.len() && ((#[trigger] entry.interfaces@[k])@.len() == 0
                    || entry.interfaces@[k]@.contains('\0')) {
                fault == Some(ZoneFault::InvalidInterface { zone: entry.name@ })
            } else if exists|i: int|
                0 <= i < entries.len() && (#[trigger] entries[i]).name@ == entry.name@ {
                fault == Some(ZoneFault::Duplicate { zone: entry.name@ })
            } else {
                fault is None
            }
        }),
{
    assert(entries.push(entry).drop_last() =~= entries);
    law_documents_are_accepted_whole(entries);
    lemma_invalid_interfaces(entry.interfaces@);
    let zones = listing(entries).zones;
    lemma_named_none(zones, entry.name@);
    if exists|i: int| 0 <= i < entries.len() && (#[trigger] entries[i]).name@ == entry.name@ {
        let i = choose|i: int|
            0 <= i < entries.len() && (#[trigger] entries[i]).name@ == entry.name@;
        assert(stands_for(zones[i], entries[i]));
        assert(zones[i].name@ == entry.name@);
    } else {
        assert forall|i: int| 0 <= i < zones.len() implies (#[trigger] zones[i]).name@
            != entry.name@ by {
            assert(stands_for(zones[i], entries[i]));
        }
    }
}

/// Once an entry was refused, no later entry matters.
pub proof fn law_nothing_follows_a_bad_entry(entries: Seq<ZoneEntry>, entry: ZoneEntry)
    requires
        listing(entries).fault is Some,
    ensures
        listing(entries.push(entry)) == listing(entries),
{
    assert(entries.push(entry).drop_last() =~= entries);
}

/// A name in a document that maps names to interfaces stands for an entry of that name with these
/// interfaces: local where it says so, and, where it says nothing, where the name is that of the
/// host.
pub proof fn law_map_values_are_entries(name: String, interfaces: Vec<String>, local: bool)
    ensures
        entry_of(name, ZoneValue::Interfaces(interfaces)).name == name,
        entry_of(name, ZoneValue::Interfaces(interfaces)).interfaces == interfaces,
        entry_of(name, ZoneValue::Interfaces(interfaces)).local
            == crate::text::same_ignoring_ascii_case(name@, "LOCAL"@),
        entry_of(name, ZoneValue::Detail { interfaces, local }).name == name,
        entry_of(name, ZoneValue::Detail { interfaces, local }).interfaces == interfaces,
        entry_of(name, ZoneValue::Detail { interfaces, local }).local == local,
{
}

/// The name is that of a zone, and of one that is not local where a forward mapping uses it.
pub open spec fn is_usable(zones: Seq<Zone>, name: Seq<char>, forward: bool) -> bool {
    exists|zone: Zone| #[trigger]
        zones.contains(zone) && zone.name@ == name && (forward ==> !zone.local)
}

proof fn lemma_usable(zones: Seq<Zone>, name: Seq<char>, forward: bool)
    requires
        zones_wf(zones),
    ensures
        name_fault(zones, name, forward) is None <==> is_usable(zones, name, forward),
{
    if name_fault(zones, name, forward) is None {
        lemma_named_member(zones, name);
    }
    if is_usable(zones, name, forward) {
        let zone = choose|zone: Zone| #[trigger]
            zones.contains(zone) && zone.name@ == name && (forward ==> !zone.local);
        lemma_named_is(zones, zone);
    }
}

/// Names are accepted exactly where each of them can be used, wherever in the list it stands. The
/// first one that cannot is what they are refused for: it is unknown, or local.
pub proof fn law_every_name_must_be_usable(
    zones: Seq<Zone>,
    names: Seq<String>,
    forward: bool,
    name: String,
)
    requires
        zones_wf(zones),
    ensures
        names_fault(zones, names, forward) is None <==> forall|k: int|
            0 <= k < names.len() ==> is_usable(zones, (#[trigger] names[k])@, forward),
        names_fault(zones, names, forward) is Some ==> names_fault(
            zones,
            names.push(name),
            forward,
        ) == names_fault(zones, names, forward),
        names_fault(zones, names, forward) is None && !is_usable(zones, name@, forward)
            ==> names_fault(zones, names.push(name), forward) == Some(
            if is_usable(zones, name@, false) {
                ZoneFault::LocalForward { zone: name@ }
            } else {
                ZoneFault::Unknown { zone: name@ }
            },
        ),
    decreases names.len(),
{
    assert(names.push(name).drop_last() =~= names);
    lemma_usable(zones, name@, forward);
    lemma_usable(zones, name@, false);
    if names.len() > 0 {
        let before = names.drop_last();
        law_every_name_must_be_usable(zones, before, forward, name);
        lemma_usable(zones, names.last()@, forward);
        if forall|k: int|
            0 <= k < names.len() ==> is_usable(zones, (#[trigger] names[k])@, forward) {
            assert forall|k: int| 0 <= k < before.len() implies is_usable(
                zones,
                (#[trigger] before[k])@,
                forward,
            ) by {
                assert(is_usable(zones, names[k]@, forward));
            }
            assert(is_usable(zones, names[names.len() - 1]@, forward));
        }
        if names_fault(zones, names, forward) is None {
            assert forall|k: int| 0 <= k < names.len() implies is_usable(
                zones,
                (#[trigger] names[k])@,
                forward,
            ) by {
                if k < before.len() {
                    assert(is_usable(zones, before[k]@, forward));
                }
            }
        }
    }
}

/// Every zone that the mapping names can be used on the chain.
pub open spec fn names_usable(zones: Seq<Zone>, chain: Chain, rule: RuleMapping) -> bool {
    &&& forall|k: int|
        0 <= k < rule.ingress_zones@.len() ==> is_usable(
            zones,
            (#[trigger] rule.ingress_zones@[k])@,
            chain is Forward,
        )
    &&& forall|k: int|
        0 <= k < rule.egress_zones@.len() ==> is_usable(
            zones,
            (#[trigger] rule.egress_zones@[k])@,
            chain is Forward,
        )
}

/// A mapping is accepted exactly where it suits its chain and every zone that it names can be used:
/// an input mapping names no egress zones, an output mapping no ingress zones, a forward mapping
/// both, and none that is local.
pub proof fn law_mappings_suit_their_chain(zones: Seq<Zone>, chain: Chain, rule: RuleMapping)
    requires
        zones_wf(zones),
    ensures
        rule_fault(zones, chain, rule) is None <==> {
            &&& chain is Input ==> rule.egress_zones@.len() == 0
            &&& chain is Output ==> rule.ingress_zones@.len() == 0
            &&& chain is Forward ==> rule.ingress_zones@.len() > 0 && rule.egress_zones@.len() > 0
            &&& names_usable(zones, chain, rule)
        },
        chain is Input && rule.egress_zones@.len() > 0 ==> rule_fault(zones, chain, rule) == Some(
            ZoneFault::InputEgress,
        ),
        chain is Output && rule.ingress_zones@.len() > 0 ==> rule_fault(zones, chain, rule) == Some(
            ZoneFault::OutputIngress,
        ),
        chain is Forward && (rule.ingress_zones@.len() == 0 || rule.egress_zones@.len() == 0)
            ==> rule_fault(zones, chain, rule) == Some(ZoneFault::ForwardIncomplete),
{
    let forward = chain is Forward;
    if rule.ingress_zones@.len() > 0 {
        law_every_name_must_be_usable(
            zones,
            rule.ingress_zones@,
            forward,
            rule.ingress_zones@[0],
        );
    }
    if rule.egress_zones@.len() > 0 {
        law_every_name_must_be_usable(zones, rule.egress_zones@, forward, rule.egress_zones@[0]);
    }
}

proof fn lemma_mappings_none(zones: Seq<Zone>, rules: Seq<(Chain, RuleMapping)>)
    ensures
        mappings_fault(zones, rules) is None <==> forall|k: int|
            0 <= k < rules.len() ==> rule_fault(zones, (#[trigger] rules[k]).0, rules[k].1) is None,
    decreases rules.len(),
{
    if rules.len() > 0 {
        let before = rules.drop_last();
        lemma_mappings_none(zones, before);
        if mappings_fault(zones, rules) is None {
            assert forall|k: int| 0 <= k < rules.len() implies rule_fault(
                zones,
                (#[trigger] rules[k]).0,
                rules[k].1,
            ) is None by {
                if k < before.len() {
                    assert(rule_fault(zones, before[k].0, before[k].1) is None);
                }
            }
        }
        if forall|k: int|
            0 <= k < rules.len() ==> rule_fault(zones, (#[trigger] rules[k]).0, rules[k].1)
                is None {
            assert forall|k: int| 0 <= k < before.len() implies rule_fault(
                zones,
                (#[trigger] before[k]).0,
                before[k].1,
            ) is None by {
                assert(rule_fault(zones, rules[k].0, rules[k].1) is None);
            }
            assert(rule_fault(zones, rules[rules.len() - 1].0, rules[rules.len() - 1].1) is None);
        }
    }
}

/// The mappings are accepted exactly where every one of every chain is.
pub proof fn law_every_mapping_is_judged(zones: Seq<Zone>, rules: Rules)
    ensures
        mappings_fault(zones, mappings(rules)) is None <==> forall|chain: Chain, rule: RuleMapping|
            #[trigger] rules_on(rules, chain).contains(rule) ==> rule_fault(zones, chain, rule)
                is None,
{
    let all = mappings(rules);
    lemma_mappings_none(zones, all);
    if mappings_fault(zones, all) is None {
        assert forall|chain: Chain, rule: RuleMapping| #[trigger]
            rules_on(rules, chain).contains(rule) implies rule_fault(zones, chain, rule) is None by {
            law_mappings_keep_their_chains(rules, chain, rule);
            let k = choose|k: int| 0 <= k < all.len() && #[trigger] all[k] == (chain, rule);
            assert(rule_fault(zones, all[k].0, all[k].1) is None);
        }
    }
    if forall|chain: Chain, rule: RuleMapping| #[trigger]
        rules_on(rules, chain).contains(rule) ==> rule_fault(zones, chain, rule) is None {
        assert forall|k: int| 0 <= k < all.len() implies rule_fault(
            zones,
            (#[trigger] all[k]).0,
            all[k].1,
        ) is None by {
            let (chain, rule) = all[k];
            assert(all.contains((chain, rule)));
            law_mappings_keep_their_chains(rules, chain, rule);
            assert(rules_on(rules, chain).contains(rule));
        }
    }
}

/// A resolved mapping keeps its chain and its list, and has on each side exactly the interfaces of
/// the zones that it names there, in order and each once.
pub proof fn law_resolved_mappings_keep_their_sides(
    zones: Seq<Zone>,
    chain: Chain,
    rule: RuleMapping,
    resolved: ResolvedRule,
    interface: Seq<char>,
)
    requires
        zones_wf(zones),
        resolves(zones, chain, rule, resolved),
    ensures
        resolved.chain == chain,
        resolved.blocklist == rule.blocklist,
        crate::text::ascending(resolved.ingress@),
        crate::text::ascending(resolved.egress@),
        crate::text::has_text(resolved.ingress@, interface) <==> belongs(
            zones,
            rule.ingress_zones@,
            interface,
        ),
        crate::text::has_text(resolved.egress@, interface) <==> belongs(
            zones,
            rule.egress_zones@,
            interface,
        ),
{
    law_names_stand_for_their_zones(zones, rule.ingress_zones@, interface);
    law_names_stand_for_their_zones(zones, rule.egress_zones@, interface);
}

/// A document that maps names to interfaces has an entry for every name, in their order.
pub proof fn law_every_name_is_an_entry(map: Seq<(String, ZoneValue)>, k: int)
    ensures
        entries_of(map).len() == map.len(),
        0 <= k < map.len() ==> entries_of(map)[k] == entry_of(map[k].0, map[k].1),
{
}

/// Zones come of a list of entries exactly where each can be a zone and no name comes twice; and then
/// there is one for each entry.
pub proof fn law_zones_come_of_their_entries(
    entries: Vec<ZoneEntry>,
    r: Result<Zones, ZoneError>,
    k: int,
)
    requires
        call_ensures(Zones::from_entries, (entries,), r),
    ensures
        r is Ok <==> entries_stand(entries@),
        r matches Ok(zones) ==> zones.zones().len() == entries@.len() && zones_wf(zones.zones()),
        r matches Ok(zones) ==> (0 <= k < entries@.len() ==> stands_for(
            zones.zones()[k],
            entries@[k],
        )),
{
    law_documents_are_accepted_whole(entries@);
}

/// The interfaces of named zones are those of every zone named, each once and in order, exactly where
/// every name is that of a zone.
pub proof fn law_named_zones_give_their_interfaces(
    zones: &Zones,
    names: &Vec<String>,
    r: Result<Vec<String>, ZoneError>,
    interface: Seq<char>,
)
    requires
        zones_wf(zones.zones()),
        names@.len() > 0,
        call_ensures(Zones::interfaces, (zones, names), r),
    ensures
        r is Ok <==> forall|k: int|
            0 <= k < names@.len() ==> is_usable(zones.zones(), (#[trigger] names@[k])@, false),
        r matches Ok(interfaces) ==> (crate::text::has_text(interfaces@, interface) <==> belongs(
            zones.zones(),
            names@,
            interface,
        )) && crate::text::ascending(interfaces@),
{
    law_every_name_must_be_usable(zones.zones(), names@, false, names@[0]);
    law_names_stand_for_their_zones(zones.zones(), names@, interface);
}

} // verus!
