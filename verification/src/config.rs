//! The configuration: which lists apply to which zones, and how they are enforced.
use crate::text::insert_ascending;
use crate::zones::Chain;
use crate::zones::ResolvedRule;
use crate::zones::ZoneError;
use crate::zones::ZoneFault;
use crate::zones::Zones;
use crate::text::quoted;
use vstd::prelude::*;
use vstd::string::*;

verus! {

/// Which of the two blocklists.
#[derive(Debug, Clone, Copy, PartialEq, Eq, PartialOrd, Ord, Hash, Structural)]
pub enum Direction {
    Inbound,
    Outbound,
}

impl Direction {
    pub open spec fn text(self) -> Seq<char> {
        match self {
            Direction::Inbound => "inbound"@,
            Direction::Outbound => "outbound"@,
        }
    }

    pub fn as_str(self) -> (r: &'static str)
        ensures
            r@ == self.text(),
    {
        match self {
            Direction::Inbound => "inbound",
            Direction::Outbound => "outbound",
        }
    }
}

/// One mapping of a blocklist to zones.
#[derive(Debug, Clone, PartialEq, Eq)]
pub struct RuleMapping {
    pub blocklist: Direction,
    pub ingress_zones: Vec<String>,
    pub egress_zones: Vec<String>,
}

/// The mappings, by chain.
#[derive(Debug, Clone, PartialEq, Eq)]
pub struct Rules {
    pub input: Vec<RuleMapping>,
    pub forward: Vec<RuleMapping>,
    pub output: Vec<RuleMapping>,
}

/// Where the lists and the zones are. A list that no mapping references needs no path.
#[derive(Debug, Clone, PartialEq, Eq)]
pub struct Files {
    pub zones: Option<String>,
    pub inbound: Option<String>,
    pub outbound: Option<String>,
}

/// How the nftables table is set up.
#[derive(Debug, Clone, PartialEq, Eq)]
pub struct Nftables {
    pub table: String,
    pub priority: i32,
    pub batch_page_bytes: u32,
    pub populate_batch_elements: u32,
    pub allow_flowtable_bypass: bool,
    pub cleanup_on_exit: bool,
}

/// How long changes settle before a reload, and how often the table is put back in place, in
/// milliseconds.
#[derive(Debug, Clone, Copy, PartialEq, Eq, Structural)]
pub struct Runtime {
    pub debounce: u64,
    pub reconcile: u64,
}

/// How XDP programs are attached.
#[derive(Debug, Clone, Copy, PartialEq, Eq, Structural)]
pub enum XdpMode {
    Auto,
    Native,
    Generic,
}

/// One mapping of a blocklist to the zones whose ingress XDP filters.
#[derive(Debug, Clone, PartialEq, Eq)]
pub struct XdpRule {
    pub blocklist: Direction,
    pub ingress_zones: Vec<String>,
}

/// How XDP is set up.
#[derive(Debug, Clone, PartialEq, Eq)]
pub struct Xdp {
    pub mode: XdpMode,
    pub pin_path: String,
    pub ipv4_max_entries: u32,
    pub ipv6_max_entries: u32,
    pub populate_batch_elements: u32,
    pub cleanup_on_exit: bool,
    pub allow_nftables_overlap: bool,
    pub rules: Vec<XdpRule>,
}

impl Default for Xdp {
    fn default() -> (xdp: Self)
        ensures
            xdp.mode == XdpMode::Auto,
            xdp.pin_path@ == "/sys/fs/bpf/cidrwall"@,
            xdp.ipv4_max_entries == 5_000_000,
            xdp.ipv6_max_entries == 5_000_000,
            xdp.populate_batch_elements == 2000,
            !xdp.cleanup_on_exit,
            !xdp.allow_nftables_overlap,
            xdp.rules@.len() == 0,
    {
        Xdp {
            mode: XdpMode::Auto,
            pin_path: String::from_str("/sys/fs/bpf/cidrwall"),
            ipv4_max_entries: 5_000_000,
            ipv6_max_entries: 5_000_000,
            populate_batch_elements: 2000,
            cleanup_on_exit: false,
            allow_nftables_overlap: false,
            rules: Vec::new(),
        }
    }
}

impl Nftables {
    /// The settings for a table, with the defaults for batches and nothing removed or bypassed.
    pub fn new(table: String, priority: i32) -> (nftables: Self)
        ensures
            nftables.table == table,
            nftables.priority == priority,
            nftables.batch_page_bytes == 131072,
            nftables.populate_batch_elements == 2000,
            !nftables.allow_flowtable_bypass,
            !nftables.cleanup_on_exit,
    {
        Nftables {
            table,
            priority,
            batch_page_bytes: 131072,
            populate_batch_elements: 2000,
            allow_flowtable_bypass: false,
            cleanup_on_exit: false,
        }
    }
}

/// The configuration.
#[derive(Debug, Clone, PartialEq, Eq)]
pub struct Config {
    pub files: Files,
    pub nftables: Nftables,
    pub runtime: Runtime,
    pub rules: Rules,
    pub xdp: Xdp,
}

/// What an administrator asks to be removed.
#[derive(Debug, Clone, Copy, PartialEq, Eq, Structural)]
pub enum CleanupTarget {
    Nftables,
    Xdp,
    All,
}

impl CleanupTarget {
    pub fn includes_nftables(self) -> (r: bool)
        ensures
            r == (self != CleanupTarget::Xdp),
    {
        self == CleanupTarget::Nftables || self == CleanupTarget::All
    }

    pub fn includes_xdp(self) -> (r: bool)
        ensures
            r == (self != CleanupTarget::Nftables),
    {
        self == CleanupTarget::Xdp || self == CleanupTarget::All
    }
}

/// Where the zones come from.
#[derive(Debug, Clone, PartialEq, Eq)]
pub enum ZoneSource {
    Inline,
    File(String),
}

/// Why a configuration is refused.
#[derive(Debug, Clone, PartialEq, Eq)]
pub enum ConfigError {
    Zone(ZoneError),
    MissingPath(Direction),
    XdpBlocklist,
    Overlap { interface: String },
    TwoZoneSources,
    NoZoneSource,
}

/// Why a configuration is refused, over mathematical values.
pub enum ConfigFault {
    Zone(ZoneFault),
    MissingPath(Direction),
    XdpBlocklist,
    Overlap { interface: Seq<char> },
    TwoZoneSources,
    NoZoneSource,
}

impl ConfigFault {
    /// The message that tells a user what is wrong.
    pub open spec fn message(self) -> Seq<char> {
        match self {
            ConfigFault::Zone(fault) => fault.message(),
            ConfigFault::MissingPath(direction) => direction.text()
                + " blocklist is referenced but has no configured path"@,
            ConfigFault::XdpBlocklist => "XDP rules only accept the inbound blocklist"@,
            ConfigFault::Overlap { interface } => "XDP interface "@ + crate::text::quoted_text(
                interface,
            ) + " also appears in an nftables inbound rule"@,
            ConfigFault::TwoZoneSources => "zones are defined both inline and in a file"@,
            ConfigFault::NoZoneSource => "no zones are configured"@,
        }
    }
}

impl ConfigError {
    pub open spec fn fault(self) -> ConfigFault {
        match self {
            ConfigError::Zone(error) => ConfigFault::Zone(error.fault()),
            ConfigError::MissingPath(direction) => ConfigFault::MissingPath(direction),
            ConfigError::XdpBlocklist => ConfigFault::XdpBlocklist,
            ConfigError::Overlap { interface } => ConfigFault::Overlap { interface: interface@ },
            ConfigError::TwoZoneSources => ConfigFault::TwoZoneSources,
            ConfigError::NoZoneSource => ConfigFault::NoZoneSource,
        }
    }

    /// The message that tells a user what is wrong.
    pub fn message(&self) -> (r: String)
        ensures
            r@ == self.fault().message(),
    {
        match self {
            ConfigError::Zone(error) => error.message(),
            ConfigError::MissingPath(direction) => String::from_str(direction.as_str()).concat(
                " blocklist is referenced but has no configured path",
            ),
            ConfigError::XdpBlocklist => String::from_str(
                "XDP rules only accept the inbound blocklist",
            ),
            ConfigError::Overlap { interface } => String::from_str("XDP interface ").concat(
                quoted(interface.as_str()).as_str(),
            ).concat(" also appears in an nftables inbound rule"),
            ConfigError::TwoZoneSources => String::from_str(
                "zones are defined both inline and in a file",
            ),
            ConfigError::NoZoneSource => String::from_str("no zones are configured"),
        }
    }
}

/// Where the zones come from: a path given on the command line or in the environment wins;
/// otherwise exactly one of the inline definition and the configured file must be there.
pub fn zone_source(inline: bool, configured: Option<String>, explicit: Option<String>) -> (r: Result<
    ZoneSource,
    ConfigError,
>)
    ensures
        match (explicit, inline, configured) {
            (Some(path), _, _) => r == Ok::<ZoneSource, ConfigError>(ZoneSource::File(path)),
            (None, true, Some(_)) => r == Err::<ZoneSource, ConfigError>(
                ConfigError::TwoZoneSources,
            ),
            (None, true, None) => r == Ok::<ZoneSource, ConfigError>(ZoneSource::Inline),
            (None, false, Some(path)) => r == Ok::<ZoneSource, ConfigError>(ZoneSource::File(path)),
            (None, false, None) => r == Err::<ZoneSource, ConfigError>(ConfigError::NoZoneSource),
        },
{
    match explicit {
        Some(path) => Ok(ZoneSource::File(path)),
        None => match configured {
            Some(path) => {
                if inline {
                    Err(ConfigError::TwoZoneSources)
                } else {
                    Ok(ZoneSource::File(path))
                }
            },
            None => {
                if inline {
                    Ok(ZoneSource::Inline)
                } else {
                    Err(ConfigError::NoZoneSource)
                }
            },
        },
    }
}

/// A mapping references the list.
pub open spec fn mapped(rules: Seq<RuleMapping>, direction: Direction) -> bool {
    exists|k: int| 0 <= k < rules.len() && (#[trigger] rules[k]).blocklist == direction
}

/// An XDP mapping references the list.
pub open spec fn xdp_mapped(rules: Seq<XdpRule>, direction: Direction) -> bool {
    exists|k: int| 0 <= k < rules.len() && (#[trigger] rules[k]).blocklist == direction
}

impl Rules {
    /// Some chain references the list.
    pub open spec fn uses(self, direction: Direction) -> bool {
        mapped(self.input@, direction) || mapped(self.forward@, direction) || mapped(
            self.output@,
            direction,
        )
    }
}

impl Config {
    /// The path of a list.
    pub open spec fn path_of(self, direction: Direction) -> Option<String> {
        match direction {
            Direction::Inbound => self.files.inbound,
            Direction::Outbound => self.files.outbound,
        }
    }

    /// A mapping of either kind references the list.
    pub open spec fn references(self, direction: Direction) -> bool {
        self.rules.uses(direction) || xdp_mapped(self.xdp.rules@, direction)
    }

    /// A referenced list has no path.
    pub open spec fn path_fault(self) -> Option<ConfigFault> {
        if self.references(Direction::Inbound) && self.files.inbound is None {
            Some(ConfigFault::MissingPath(Direction::Inbound))
        } else if self.references(Direction::Outbound) && self.files.outbound is None {
            Some(ConfigFault::MissingPath(Direction::Outbound))
        } else {
            None
        }
    }

    /// Why the mappings of the nftables chains are refused, if they are.
    pub open spec fn rules_fault(self, zones: Zones) -> Option<ConfigFault> {
        match crate::zones::mappings_fault(zones.zones(), crate::zones::mappings(self.rules)) {
            Some(fault) => Some(ConfigFault::Zone(fault)),
            None => self.path_fault(),
        }
    }

    /// The path of a list, where it has one.
    pub fn blocklist_path(&self, direction: Direction) -> (r: Option<&String>)
        ensures
            match r {
                Some(path) => self.path_of(direction) == Some(*path),
                None => self.path_of(direction) is None,
            },
    {
        match direction {
            Direction::Inbound => self.files.inbound.as_ref(),
            Direction::Outbound => self.files.outbound.as_ref(),
        }
    }

    /// Whether the nftables chains use a list.
    pub fn uses(&self, direction: Direction) -> (r: bool)
        ensures
            r == self.rules.uses(direction),
    {
        any_mapped(&self.rules.input, direction) || any_mapped(&self.rules.forward, direction)
            || any_mapped(&self.rules.output, direction)
    }

    /// Whether an XDP mapping uses a list.
    pub fn uses_xdp(&self, direction: Direction) -> (r: bool)
        ensures
            r == xdp_mapped(self.xdp.rules@, direction),
    {
        let mut i: usize = 0;
        while i < self.xdp.rules.len()
            invariant
                i <= self.xdp.rules@.len(),
                forall|k: int|
                    0 <= k < i ==> (#[trigger] self.xdp.rules@[k]).blocklist != direction,
            decreases self.xdp.rules@.len() - i,
        {
            if self.xdp.rules[i].blocklist == direction {
                return true;
            }
            i = i + 1;
        }
        false
    }

    /// Whether any mapping, XDP included, uses a list.
    pub fn uses_at_all(&self, direction: Direction) -> (r: bool)
        ensures
            r == self.references(direction),
    {
        self.uses(direction) || self.uses_xdp(direction)
    }

    /// The mappings of the nftables chains with their zones replaced by interfaces.
    pub fn resolve_rules(&self, zones: &Zones) -> (r: Result<Vec<ResolvedRule>, ConfigError>)
        ensures
            match r {
                Ok(resolved) => self.rules_fault(*zones) is None && crate::zones::all_resolve(
                    zones.zones(),
                    crate::zones::mappings(self.rules),
                    resolved@,
                ),
                Err(error) => self.rules_fault(*zones) == Some(error.fault()),
            },
    {
        let resolved = match zones.resolve(&self.rules) {
            Ok(resolved) => resolved,
            Err(error) => {
                return Err(ConfigError::Zone(error));
            },
        };
        if self.uses_at_all(Direction::Inbound) && self.files.inbound.is_none() {
            return Err(ConfigError::MissingPath(Direction::Inbound));
        }
        if self.uses_at_all(Direction::Outbound) && self.files.outbound.is_none() {
            return Err(ConfigError::MissingPath(Direction::Outbound));
        }
        Ok(resolved)
    }
}

fn any_mapped(rules: &Vec<RuleMapping>, direction: Direction) -> (r: bool)
    ensures
        r == mapped(rules@, direction),
{
    let mut i: usize = 0;
    while i < rules.len()
        invariant
            i <= rules@.len(),
            forall|k: int| 0 <= k < i ==> (#[trigger] rules@[k]).blocklist != direction,
        decreases rules@.len() - i,
    {
        if rules[i].blocklist == direction {
            return true;
        }
        i = i + 1;
    }
    false
}

/// The interface is an ingress interface of an XDP mapping.
pub open spec fn xdp_ingress(
    zones: Seq<crate::zones::Zone>,
    rules: Seq<XdpRule>,
    interface: Seq<char>,
) -> bool {
    exists|k: int|
        0 <= k < rules.len() && crate::zones::in_zones(
            zones,
            (#[trigger] rules[k]).ingress_zones@,
            interface,
        )
}

/// Why an XDP mapping is refused, if it is.
pub open spec fn xdp_rule_fault(zones: Seq<crate::zones::Zone>, rule: XdpRule) -> Option<
    ConfigFault,
> {
    if rule.blocklist != Direction::Inbound {
        Some(ConfigFault::XdpBlocklist)
    } else {
        match crate::zones::names_fault(zones, rule.ingress_zones@, false) {
            Some(fault) => Some(ConfigFault::Zone(fault)),
            None => None,
        }
    }
}

/// The first fault of the XDP mappings.
pub open spec fn xdp_rules_fault(zones: Seq<crate::zones::Zone>, rules: Seq<XdpRule>) -> Option<
    ConfigFault,
>
    decreases rules.len(),
{
    if rules.len() == 0 {
        None
    } else {
        match xdp_rules_fault(zones, rules.drop_last()) {
            Some(fault) => Some(fault),
            None => xdp_rule_fault(zones, rules.last()),
        }
    }
}

/// The interface is an ingress interface of an inbound mapping in the list.
pub open spec fn inbound_ingress(
    zones: Seq<crate::zones::Zone>,
    rules: Seq<RuleMapping>,
    interface: Seq<char>,
) -> bool {
    exists|k: int|
        0 <= k < rules.len() && (#[trigger] rules[k]).blocklist == Direction::Inbound
            && crate::zones::in_zones(zones, rules[k].ingress_zones@, interface)
}

/// Both XDP and an inbound nftables input or forward mapping filter what enters here.
pub open spec fn overlap(
    zones: Seq<crate::zones::Zone>,
    config: Config,
    interface: Seq<char>,
) -> bool {
    xdp_ingress(zones, config.xdp.rules@, interface) && (inbound_ingress(
        zones,
        config.rules.input@,
        interface,
    ) || inbound_ingress(zones, config.rules.forward@, interface))
}

/// What the XDP mappings come to: a fault, or the sorted ingress interfaces. Interfaces that an
/// inbound input or forward mapping covers too are refused, the first of them in order, unless
/// that is allowed.
pub open spec fn xdp_resolves(
    config: Config,
    zones: Seq<crate::zones::Zone>,
    result: Result<Vec<String>, ConfigError>,
) -> bool {
    let nft = crate::zones::mappings_fault(zones, crate::zones::mappings(config.rules));
    if xdp_rules_fault(zones, config.xdp.rules@) is Some {
        result matches Err(error) && xdp_rules_fault(zones, config.xdp.rules@) == Some(
            error.fault(),
        )
    } else if !config.xdp.allow_nftables_overlap && nft is Some {
        result matches Err(error) && error.fault() == ConfigFault::Zone(nft->0)
    } else if !config.xdp.allow_nftables_overlap && exists|interface: Seq<char>|
        overlap(zones, config, interface) {
        &&& result matches Err(error)
        &&& error.fault() matches ConfigFault::Overlap { interface }
        &&& overlap(zones, config, interface)
        &&& forall|other: Seq<char>|
            crate::text::text_before(other, interface) ==> !overlap(zones, config, other)
    } else {
        &&& result matches Ok(interfaces)
        &&& crate::text::ascending(interfaces@)
        &&& forall|t: Seq<char>| #[trigger]
            crate::text::has_text(interfaces@, t) <==> xdp_ingress(zones, config.xdp.rules@, t)
    }
}

proof fn lemma_xdp_fault_stays(zones: Seq<crate::zones::Zone>, rules: Seq<XdpRule>, n: int)
    requires
        0 <= n <= rules.len(),
        xdp_rules_fault(zones, rules.take(n)) is Some,
    ensures
        xdp_rules_fault(zones, rules) == xdp_rules_fault(zones, rules.take(n)),
    decreases rules.len() - n,
{
    if n < rules.len() {
        assert(rules.take(n + 1).drop_last() =~= rules.take(n));
        lemma_xdp_fault_stays(zones, rules, n + 1);
    } else {
        assert(rules.take(n) =~= rules);
    }
}

/// Adds every text of a list to a sorted one.
fn insert_all(texts: &mut Vec<String>, more: &Vec<String>)
    requires
        crate::text::ascending(old(texts)@),
    ensures
        crate::text::ascending(final(texts)@),
        forall|t: Seq<char>| #[trigger]
            crate::text::has_text(final(texts)@, t) <==> crate::text::has_text(old(texts)@, t)
                || crate::text::has_text(more@, t),
{
    let ghost before = texts@;
    let mut k: usize = 0;
    while k < more.len()
        invariant
            k <= more@.len(),
            crate::text::ascending(texts@),
            forall|t: Seq<char>| #[trigger]
                crate::text::has_text(texts@, t) <==> crate::text::has_text(before, t)
                    || crate::text::has_text(more@.take(k as int), t),
        decreases more@.len() - k,
    {
        let ghost earlier = texts@;
        insert_ascending(texts, &more[k]);
        proof {
            crate::zones::lemma_has_text_take(more@, k as int);
            assert forall|t: Seq<char>| #[trigger]
                crate::text::has_text(texts@, t) <==> crate::text::has_text(before, t)
                    || crate::text::has_text(more@.take(k + 1), t) by {
                assert(crate::text::has_text(earlier, t) <==> crate::text::has_text(before, t)
                    || crate::text::has_text(more@.take(k as int), t));
            }
        }
        k = k + 1;
    }
    proof {
        assert(more@.take(k as int) =~= more@);
    }
}

/// The resolved mapping of an inbound input or forward rule has the interface on its ingress side.
spec fn resolved_overlap(resolved: ResolvedRule, interface: Seq<char>) -> bool {
    &&& resolved.blocklist == Direction::Inbound
    &&& resolved.chain != Chain::Output
    &&& crate::text::has_text(resolved.ingress@, interface)
}

proof fn lemma_resolved_overlap(
    zones: Seq<crate::zones::Zone>,
    rules: Rules,
    resolved: Seq<ResolvedRule>,
    interface: Seq<char>,
)
    requires
        crate::zones::all_resolve(zones, crate::zones::mappings(rules), resolved),
    ensures
        (exists|k: int| 0 <= k < resolved.len() && resolved_overlap(#[trigger] resolved[k], interface))
            <==> (inbound_ingress(zones, rules.input@, interface) || inbound_ingress(
            zones,
            rules.forward@,
            interface,
        )),
{
    let all = crate::zones::mappings(rules);
    let (n, m) = (rules.input@.len() as int, rules.forward@.len() as int);
    if exists|k: int| 0 <= k < resolved.len() && resolved_overlap(#[trigger] resolved[k], interface) {
        let k = choose|k: int|
            0 <= k < resolved.len() && resolved_overlap(#[trigger] resolved[k], interface);
        assert(crate::zones::resolves(zones, all[k].0, all[k].1, resolved[k]));
        assert(crate::zones::in_zones(zones, all[k].1.ingress_zones@, interface));
        if k < n {
            assert(rules.input@[k].blocklist == Direction::Inbound);
        } else {
            assert(k < n + m);
            assert(rules.forward@[k - n].blocklist == Direction::Inbound);
        }
    }
    if inbound_ingress(zones, rules.input@, interface) {
        let k = choose|k: int|
            0 <= k < rules.input@.len() && (#[trigger] rules.input@[k]).blocklist
                == Direction::Inbound && crate::zones::in_zones(
                zones,
                rules.input@[k].ingress_zones@,
                interface,
            );
        assert(all[k] == (Chain::Input, rules.input@[k]));
        assert(crate::zones::resolves(zones, all[k].0, all[k].1, resolved[k]));
        assert(crate::text::has_text(resolved[k].ingress@, interface));
        assert(resolved_overlap(resolved[k], interface));
    }
    if inbound_ingress(zones, rules.forward@, interface) {
        let k = choose|k: int|
            0 <= k < rules.forward@.len() && (#[trigger] rules.forward@[k]).blocklist
                == Direction::Inbound && crate::zones::in_zones(
                zones,
                rules.forward@[k].ingress_zones@,
                interface,
            );
        assert(all[n + k] == (Chain::Forward, rules.forward@[k]));
        assert(crate::zones::resolves(zones, all[n + k].0, all[n + k].1, resolved[n + k]));
        assert(crate::text::has_text(resolved[n + k].ingress@, interface));
        assert(resolved_overlap(resolved[n + k], interface));
    }
}

/// Whether an inbound input or forward mapping has the interface on its ingress side.
fn covered_by(resolved: &Vec<ResolvedRule>, interface: &String) -> (r: bool)
    ensures
        r == exists|k: int|
            0 <= k < resolved@.len() && resolved_overlap(#[trigger] resolved@[k], interface@),
{
    let mut k: usize = 0;
    while k < resolved.len()
        invariant
            k <= resolved@.len(),
            forall|j: int| 0 <= j < k ==> !resolved_overlap(#[trigger] resolved@[j], interface@),
        decreases resolved@.len() - k,
    {
        if resolved[k].blocklist == Direction::Inbound && resolved[k].chain != Chain::Output
            && crate::text::contains_text(&resolved[k].ingress, interface) {
            assert(resolved_overlap(resolved@[k as int], interface@));
            return true;
        }
        k = k + 1;
    }
    false
}

impl Config {
    /// The interfaces of the zones that the XDP mappings name.
    fn xdp_interfaces(&self, zones: &Zones) -> (r: Result<Vec<String>, ConfigError>)
        ensures
            match r {
                Ok(interfaces) => xdp_rules_fault(zones.zones(), self.xdp.rules@) is None
                    && crate::text::ascending(interfaces@) && forall|t: Seq<char>| #[trigger]
                    crate::text::has_text(interfaces@, t) <==> xdp_ingress(
                        zones.zones(),
                        self.xdp.rules@,
                        t,
                    ),
                Err(error) => xdp_rules_fault(zones.zones(), self.xdp.rules@) == Some(
                    error.fault(),
                ),
            },
    {
        let ghost all = self.xdp.rules@;
        let mut interfaces: Vec<String> = Vec::new();
        let mut i: usize = 0;
        proof {
            assert(all.take(0) =~= Seq::empty());
            assert forall|t: Seq<char>| #[trigger]
                crate::text::has_text(interfaces@, t) <==> xdp_ingress(
                    zones.zones(),
                    all.take(0),
                    t,
                ) by {
            }
        }
        while i < self.xdp.rules.len()
            invariant
                i <= all.len(),
                all == self.xdp.rules@,
                xdp_rules_fault(zones.zones(), all.take(i as int)) is None,
                crate::text::ascending(interfaces@),
                forall|t: Seq<char>| #[trigger]
                    crate::text::has_text(interfaces@, t) <==> xdp_ingress(
                        zones.zones(),
                        all.take(i as int),
                        t,
                    ),
            decreases all.len() - i,
        {
            let ghost before = all.take(i as int);
            let ghost now = all.take(i + 1);
            proof {
                assert(now.drop_last() =~= before);
                assert(now.last() == all[i as int]);
            }
            let rule = &self.xdp.rules[i];
            if rule.blocklist != Direction::Inbound {
                proof {
                    lemma_xdp_fault_stays(zones.zones(), all, i + 1);
                }
                return Err(ConfigError::XdpBlocklist);
            }
            let more = match zones.interfaces(&rule.ingress_zones) {
                Ok(more) => more,
                Err(error) => {
                    proof {
                        lemma_xdp_fault_stays(zones.zones(), all, i + 1);
                    }
                    return Err(ConfigError::Zone(error));
                },
            };
            let ghost earlier = interfaces@;
            insert_all(&mut interfaces, &more);
            proof {
                assert forall|t: Seq<char>| #[trigger]
                    crate::text::has_text(interfaces@, t) <==> xdp_ingress(
                        zones.zones(),
                        now,
                        t,
                    ) by {
                    assert(crate::text::has_text(earlier, t) <==> xdp_ingress(
                        zones.zones(),
                        before,
                        t,
                    ));
                    assert(crate::text::has_text(more@, t) <==> crate::zones::in_zones(
                        zones.zones(),
                        all[i as int].ingress_zones@,
                        t,
                    ));
                    if xdp_ingress(zones.zones(), before, t) {
                        let k = choose|k: int|
                            0 <= k < before.len() && crate::zones::in_zones(
                                zones.zones(),
                                (#[trigger] before[k]).ingress_zones@,
                                t,
                            );
                        assert(now[k] == before[k]);
                    }
                    if crate::text::has_text(more@, t) {
                        assert(now[i as int] == all[i as int]);
                    }
                    if xdp_ingress(zones.zones(), now, t) {
                        let k = choose|k: int|
                            0 <= k < now.len() && crate::zones::in_zones(
                                zones.zones(),
                                (#[trigger] now[k]).ingress_zones@,
                                t,
                            );
                        if k < i {
                            assert(before[k] == now[k]);
                        }
                    }
                }
            }
            i = i + 1;
        }
        proof {
            assert(all.take(i as int) =~= all);
        }
        Ok(interfaces)
    }

    /// The ingress interfaces that XDP filters.
    pub fn resolve_xdp_interfaces(&self, zones: &Zones) -> (r: Result<Vec<String>, ConfigError>)
        ensures
            xdp_resolves(*self, zones.zones(), r),
    {
        let ghost z = zones.zones();
        let interfaces = match self.xdp_interfaces(zones) {
            Ok(interfaces) => interfaces,
            Err(error) => {
                return Err(error);
            },
        };
        if self.xdp.allow_nftables_overlap {
            return Ok(interfaces);
        }
        let resolved = match zones.resolve(&self.rules) {
            Ok(resolved) => resolved,
            Err(error) => {
                return Err(ConfigError::Zone(error));
            },
        };
        let mut i: usize = 0;
        while i < interfaces.len()
            invariant
                i <= interfaces@.len(),
                z == zones.zones(),
                !self.xdp.allow_nftables_overlap,
                xdp_rules_fault(z, self.xdp.rules@) is None,
                crate::zones::mappings_fault(z, crate::zones::mappings(self.rules)) is None,
                crate::zones::all_resolve(z, crate::zones::mappings(self.rules), resolved@),
                crate::text::ascending(interfaces@),
                forall|t: Seq<char>| #[trigger]
                    crate::text::has_text(interfaces@, t) <==> xdp_ingress(z, self.xdp.rules@, t),
                forall|k: int| 0 <= k < i ==> !overlap(z, *self, (#[trigger] interfaces@[k])@),
            decreases interfaces@.len() - i,
        {
            proof {
                lemma_resolved_overlap(z, self.rules, resolved@, interfaces@[i as int]@);
                assert(crate::text::has_text(interfaces@, interfaces@[i as int]@));
            }
            if covered_by(&resolved, &interfaces[i]) {
                proof {
                    let found = interfaces@[i as int]@;
                    assert(overlap(z, *self, found));
                    assert forall|other: Seq<char>|
                        crate::text::text_before(other, found) implies !overlap(z, *self, other) by {
                        if overlap(z, *self, other) {
                            assert(crate::text::has_text(interfaces@, other));
                            let k = choose|k: int|
                                0 <= k < interfaces@.len() && (#[trigger] interfaces@[k])@ == other;
                            if k > i {
                                assert(crate::text::text_before(
                                    interfaces@[i as int]@,
                                    interfaces@[k]@,
                                ));
                                crate::text::lemma_text_transitive(other, found, other);
                            }
                            crate::text::lemma_text_irreflexive(other);
                        }
                    }
                }
                return Err(ConfigError::Overlap { interface: interfaces[i].clone() });
            }
            i = i + 1;
        }
        proof {
            assert forall|interface: Seq<char>| !overlap(z, *self, interface) by {
                if overlap(z, *self, interface) {
                    assert(crate::text::has_text(interfaces@, interface));
                    let k = choose|k: int|
                        0 <= k < interfaces@.len() && (#[trigger] interfaces@[k])@ == interface;
                }
            }
        }
        Ok(interfaces)
    }
}

/// A mapping of some chain is for this list.
pub open spec fn on_some_chain(rules: Rules, direction: Direction) -> bool {
    exists|mapping: RuleMapping|
        #![trigger rules.input@.contains(mapping)]
        #![trigger rules.forward@.contains(mapping)]
        #![trigger rules.output@.contains(mapping)]
        mapping.blocklist == direction && (rules.input@.contains(mapping)
            || rules.forward@.contains(mapping) || rules.output@.contains(mapping))
}

/// A list is in use exactly where a mapping of some chain, whichever it is, names it: for each list
/// this is so whether or not the other list is named too.
pub proof fn law_any_chain_makes_a_list_used(rules: Rules, direction: Direction)
    ensures
        rules.uses(direction) <==> on_some_chain(rules, direction),
{
    if mapped(rules.input@, direction) {
        let k = choose|k: int|
            0 <= k < rules.input@.len() && (#[trigger] rules.input@[k]).blocklist == direction;
        assert(rules.input@.contains(rules.input@[k]));
    }
    if mapped(rules.forward@, direction) {
        let k = choose|k: int|
            0 <= k < rules.forward@.len() && (#[trigger] rules.forward@[k]).blocklist == direction;
        assert(rules.forward@.contains(rules.forward@[k]));
    }
    if mapped(rules.output@, direction) {
        let k = choose|k: int|
            0 <= k < rules.output@.len() && (#[trigger] rules.output@[k]).blocklist == direction;
        assert(rules.output@.contains(rules.output@[k]));
    }
    if on_some_chain(rules, direction) {
        let mapping = choose|mapping: RuleMapping|
            #![trigger rules.input@.contains(mapping)]
            #![trigger rules.forward@.contains(mapping)]
            #![trigger rules.output@.contains(mapping)]
            mapping.blocklist == direction && (rules.input@.contains(mapping)
                || rules.forward@.contains(mapping) || rules.output@.contains(mapping));
        if rules.input@.contains(mapping) {
            let k = choose|k: int|
                0 <= k < rules.input@.len() && #[trigger] rules.input@[k] == mapping;
            assert(rules.input@[k].blocklist == direction);
        } else if rules.forward@.contains(mapping) {
            let k = choose|k: int|
                0 <= k < rules.forward@.len() && #[trigger] rules.forward@[k] == mapping;
            assert(rules.forward@[k].blocklist == direction);
        } else {
            let k = choose|k: int|
                0 <= k < rules.output@.len() && #[trigger] rules.output@[k] == mapping;
            assert(rules.output@[k].blocklist == direction);
        }
    }
}

/// An XDP mapping is for this list.
pub open spec fn on_xdp(rules: Seq<XdpRule>, direction: Direction) -> bool {
    exists|rule: XdpRule| #[trigger] rules.contains(rule) && rule.blocklist == direction
}

/// XDP uses a list exactly where one of its mappings names it.
pub proof fn law_any_xdp_mapping_counts(rules: Seq<XdpRule>, direction: Direction)
    ensures
        xdp_mapped(rules, direction) <==> on_xdp(rules, direction),
{
    if xdp_mapped(rules, direction) {
        let k = choose|k: int| 0 <= k < rules.len() && (#[trigger] rules[k]).blocklist == direction;
        assert(rules.contains(rules[k]));
    }
    if on_xdp(rules, direction) {
        let rule = choose|rule: XdpRule| #[trigger]
            rules.contains(rule) && rule.blocklist == direction;
        let k = choose|k: int| 0 <= k < rules.len() && #[trigger] rules[k] == rule;
        assert(rules[k].blocklist == direction);
    }
}

/// A list is referenced exactly where a mapping of a chain, or one of XDP, names it.
pub proof fn law_any_mapping_references_its_list(config: Config, direction: Direction)
    ensures
        config.references(direction) <==> on_some_chain(config.rules, direction) || on_xdp(
            config.xdp.rules@,
            direction,
        ),
{
    law_any_chain_makes_a_list_used(config.rules, direction);
    law_any_xdp_mapping_counts(config.xdp.rules@, direction);
}

/// A configuration's mappings are accepted exactly where each of them is, and every list that some
/// mapping names, be it of a chain or of XDP, has a path. A list that none names needs none.
pub proof fn law_named_lists_need_a_path(config: Config, zones: Zones)
    ensures
        config.rules_fault(zones) is None <==> {
            &&& crate::zones::mappings_fault(zones.zones(), crate::zones::mappings(config.rules))
                is None
            &&& on_some_chain(config.rules, Direction::Inbound) || on_xdp(
                config.xdp.rules@,
                Direction::Inbound,
            ) ==> config.files.inbound is Some
            &&& on_some_chain(config.rules, Direction::Outbound) || on_xdp(
                config.xdp.rules@,
                Direction::Outbound,
            ) ==> config.files.outbound is Some
        },
        crate::zones::mappings_fault(zones.zones(), crate::zones::mappings(config.rules)) matches Some(
            fault,
        ) ==> config.rules_fault(zones) == Some(ConfigFault::Zone(fault)),
        config.rules_fault(zones) == Some(ConfigFault::MissingPath(Direction::Inbound))
            ==> config.files.inbound is None,
        config.rules_fault(zones) == Some(ConfigFault::MissingPath(Direction::Outbound))
            ==> config.files.outbound is None,
{
    law_any_mapping_references_its_list(config, Direction::Inbound);
    law_any_mapping_references_its_list(config, Direction::Outbound);
}

/// An XDP mapping has the interface in one of its zones.
pub open spec fn xdp_filters(
    zones: Seq<crate::zones::Zone>,
    rules: Seq<XdpRule>,
    interface: Seq<char>,
) -> bool {
    exists|rule: XdpRule| #[trigger]
        rules.contains(rule) && crate::zones::belongs(zones, rule.ingress_zones@, interface)
}

/// A mapping of the inbound list has the interface in one of its ingress zones.
pub open spec fn mapping_filters(
    zones: Seq<crate::zones::Zone>,
    rules: Seq<RuleMapping>,
    interface: Seq<char>,
) -> bool {
    exists|rule: RuleMapping| #[trigger]
        rules.contains(rule) && rule.blocklist == Direction::Inbound && crate::zones::belongs(
            zones,
            rule.ingress_zones@,
            interface,
        )
}

proof fn lemma_xdp_filters(
    zones: Seq<crate::zones::Zone>,
    rules: Seq<XdpRule>,
    interface: Seq<char>,
)
    requires
        crate::zones::zones_wf(zones),
    ensures
        xdp_ingress(zones, rules, interface) <==> xdp_filters(zones, rules, interface),
{
    if xdp_ingress(zones, rules, interface) {
        let k = choose|k: int|
            0 <= k < rules.len() && crate::zones::in_zones(
                zones,
                (#[trigger] rules[k]).ingress_zones@,
                interface,
            );
        crate::zones::law_names_stand_for_their_zones(zones, rules[k].ingress_zones@, interface);
        assert(rules.contains(rules[k]));
    }
    if xdp_filters(zones, rules, interface) {
        let rule = choose|rule: XdpRule| #[trigger]
            rules.contains(rule) && crate::zones::belongs(zones, rule.ingress_zones@, interface);
        crate::zones::law_names_stand_for_their_zones(zones, rule.ingress_zones@, interface);
        let k = choose|k: int| 0 <= k < rules.len() && #[trigger] rules[k] == rule;
        assert(crate::zones::in_zones(zones, rules[k].ingress_zones@, interface));
    }
}

proof fn lemma_mapping_filters(
    zones: Seq<crate::zones::Zone>,
    rules: Seq<RuleMapping>,
    interface: Seq<char>,
)
    requires
        crate::zones::zones_wf(zones),
    ensures
        inbound_ingress(zones, rules, interface) <==> mapping_filters(zones, rules, interface),
{
    if inbound_ingress(zones, rules, interface) {
        let k = choose|k: int|
            0 <= k < rules.len() && (#[trigger] rules[k]).blocklist == Direction::Inbound
                && crate::zones::in_zones(zones, rules[k].ingress_zones@, interface);
        crate::zones::law_names_stand_for_their_zones(zones, rules[k].ingress_zones@, interface);
        assert(rules.contains(rules[k]));
    }
    if mapping_filters(zones, rules, interface) {
        let rule = choose|rule: RuleMapping| #[trigger]
            rules.contains(rule) && rule.blocklist == Direction::Inbound && crate::zones::belongs(
                zones,
                rule.ingress_zones@,
                interface,
            );
        crate::zones::law_names_stand_for_their_zones(zones, rule.ingress_zones@, interface);
        let k = choose|k: int| 0 <= k < rules.len() && #[trigger] rules[k] == rule;
        assert(crate::zones::in_zones(zones, rules[k].ingress_zones@, interface));
    }
}

/// Two filters meet on an interface exactly where an XDP mapping and an inbound mapping of the input
/// or the forward chain both have it on their ingress side. The output chain never counts, and
/// neither do outbound mappings.
pub proof fn law_overlaps_are_on_ingress(
    zones: Seq<crate::zones::Zone>,
    config: Config,
    interface: Seq<char>,
)
    requires
        crate::zones::zones_wf(zones),
    ensures
        overlap(zones, config, interface) <==> xdp_filters(zones, config.xdp.rules@, interface) && (
        mapping_filters(zones, config.rules.input@, interface) || mapping_filters(
            zones,
            config.rules.forward@,
            interface,
        )),
{
    lemma_xdp_filters(zones, config.xdp.rules@, interface);
    lemma_mapping_filters(zones, config.rules.input@, interface);
    lemma_mapping_filters(zones, config.rules.forward@, interface);
}

/// The interfaces that XDP filters are exactly those of the zones that its mappings name; and unless
/// that is allowed, none of them is filtered by an inbound mapping of the input or forward chain
/// too.
pub proof fn law_xdp_filters_its_zones(
    config: Config,
    zones: Zones,
    interfaces: Vec<String>,
    interface: Seq<char>,
)
    requires
        crate::zones::zones_wf(zones.zones()),
        xdp_resolves(config, zones.zones(), Ok(interfaces)),
    ensures
        crate::text::ascending(interfaces@),
        crate::text::has_text(interfaces@, interface) <==> xdp_filters(
            zones.zones(),
            config.xdp.rules@,
            interface,
        ),
        !config.xdp.allow_nftables_overlap && crate::text::has_text(interfaces@, interface)
            ==> !mapping_filters(zones.zones(), config.rules.input@, interface)
            && !mapping_filters(zones.zones(), config.rules.forward@, interface),
{
    let z = zones.zones();
    lemma_xdp_filters(z, config.xdp.rules@, interface);
    law_overlaps_are_on_ingress(z, config, interface);
}

/// XDP is accepted wherever overlaps are allowed or there are none, its mappings are all for the
/// inbound list, and every zone that they name is there.
pub proof fn law_xdp_is_accepted_without_faults(
    config: Config,
    zones: Zones,
    r: Result<Vec<String>, ConfigError>,
)
    requires
        xdp_resolves(config, zones.zones(), r),
        crate::zones::zones_wf(zones.zones()),
        forall|rule: XdpRule| #[trigger]
            config.xdp.rules@.contains(rule) ==> rule.blocklist == Direction::Inbound && (forall|
                k: int,
            |
                0 <= k < rule.ingress_zones@.len() ==> crate::zones::is_usable(
                    zones.zones(),
                    (#[trigger] rule.ingress_zones@[k])@,
                    false,
                )),
        config.xdp.allow_nftables_overlap || crate::zones::mappings_fault(
            zones.zones(),
            crate::zones::mappings(config.rules),
        ) is None && forall|interface: Seq<char>|
            !(#[trigger] xdp_filters(zones.zones(), config.xdp.rules@, interface) && (
            mapping_filters(zones.zones(), config.rules.input@, interface) || mapping_filters(
                zones.zones(),
                config.rules.forward@,
                interface,
            ))),
    ensures
        r is Ok,
{
    let z = zones.zones();
    lemma_xdp_rules_accepted(z, config.xdp.rules@);
    if !config.xdp.allow_nftables_overlap {
        assert forall|interface: Seq<char>| !overlap(z, config, interface) by {
            law_overlaps_are_on_ingress(z, config, interface);
        }
    }
}

proof fn lemma_xdp_rules_accepted(zones: Seq<crate::zones::Zone>, rules: Seq<XdpRule>)
    requires
        crate::zones::zones_wf(zones),
        forall|rule: XdpRule| #[trigger]
            rules.contains(rule) ==> rule.blocklist == Direction::Inbound && (forall|k: int|
                0 <= k < rule.ingress_zones@.len() ==> crate::zones::is_usable(
                    zones,
                    (#[trigger] rule.ingress_zones@[k])@,
                    false,
                )),
    ensures
        xdp_rules_fault(zones, rules) is None,
    decreases rules.len(),
{
    if rules.len() > 0 {
        let before = rules.drop_last();
        let last = rules.last();
        assert forall|rule: XdpRule| #[trigger] before.contains(rule) implies rules.contains(
            rule,
        ) by {
            let k = choose|k: int| 0 <= k < before.len() && before[k] == rule;
            assert(rules[k] == rule);
        }
        lemma_xdp_rules_accepted(zones, before);
        assert(rules[rules.len() - 1] == last);
        assert(rules.contains(last));
        if last.ingress_zones@.len() > 0 {
            crate::zones::law_every_name_must_be_usable(
                zones,
                last.ingress_zones@,
                false,
                last.ingress_zones@[0],
            );
        }
    }
}

/// An XDP mapping of the outbound list is refused, wherever it stands, unless an earlier mapping is
/// refused first.
pub proof fn law_xdp_takes_the_inbound_list_alone(
    zones: Seq<crate::zones::Zone>,
    rules: Seq<XdpRule>,
    rule: XdpRule,
)
    ensures
        rules.contains(rule) && rule.blocklist == Direction::Outbound ==> xdp_rules_fault(
            zones,
            rules,
        ) is Some,
        xdp_rules_fault(zones, rules) is Some ==> xdp_rules_fault(zones, rules.push(rule))
            == xdp_rules_fault(zones, rules),
        xdp_rules_fault(zones, rules) is None && rule.blocklist == Direction::Outbound
            ==> xdp_rules_fault(zones, rules.push(rule)) == Some(ConfigFault::XdpBlocklist),
    decreases rules.len(),
{
    assert(rules.push(rule).drop_last() =~= rules);
    if rules.len() > 0 {
        let before = rules.drop_last();
        law_xdp_takes_the_inbound_list_alone(zones, before, rule);
        if rules.contains(rule) {
            let k = choose|k: int| 0 <= k < rules.len() && rules[k] == rule;
            if k < before.len() {
                assert(before[k] == rule);
            }
        }
    }
}

/// The zones come from exactly one place. A path given for this run wins over everything else; the
/// inline definition and the configured file exclude each other, and one of them must be there.
pub proof fn law_zones_have_one_source(
    inline: bool,
    configured: Option<String>,
    explicit: Option<String>,
    r: Result<ZoneSource, ConfigError>,
)
    requires
        call_ensures(zone_source, (inline, configured, explicit), r),
    ensures
        r is Ok <==> explicit is Some || inline != (configured is Some),
        r is Ok && r->Ok_0 is Inline <==> explicit is None && inline && configured is None,
        explicit matches Some(path) ==> r == Ok::<ZoneSource, ConfigError>(ZoneSource::File(path)),
        explicit is None && !inline ==> (configured matches Some(path) ==> r == Ok::<
            ZoneSource,
            ConfigError,
        >(ZoneSource::File(path))),
        explicit is None && inline && configured is Some ==> r == Err::<ZoneSource, ConfigError>(
            ConfigError::TwoZoneSources,
        ),
        explicit is None && !inline && configured is None ==> r == Err::<ZoneSource, ConfigError>(
            ConfigError::NoZoneSource,
        ),
{
}

/// What is to be cleaned up is one of the two or both.
pub proof fn law_cleanup_targets_cover_both(target: CleanupTarget, nftables: bool, xdp: bool)
    requires
        call_ensures(CleanupTarget::includes_nftables, (target,), nftables),
        call_ensures(CleanupTarget::includes_xdp, (target,), xdp),
    ensures
        nftables || xdp,
        nftables && xdp <==> target is All,
        nftables && !xdp <==> target is Nftables,
        xdp && !nftables <==> target is Xdp,
{
}

/// Where filters may not meet and do, the configuration is refused for the first interface, in
/// order, on which they meet.
pub proof fn law_the_first_overlap_is_named(
    config: Config,
    zones: Zones,
    error: ConfigError,
    other: Seq<char>,
)
    requires
        crate::zones::zones_wf(zones.zones()),
        xdp_resolves(config, zones.zones(), Err(error)),
        error is Overlap,
    ensures
        !config.xdp.allow_nftables_overlap,
        xdp_filters(zones.zones(), config.xdp.rules@, error->interface@),
        mapping_filters(zones.zones(), config.rules.input@, error->interface@) || mapping_filters(
            zones.zones(),
            config.rules.forward@,
            error->interface@,
        ),
        crate::text::text_before(other, error->interface@) ==> !(xdp_filters(
            zones.zones(),
            config.xdp.rules@,
            other,
        ) && (mapping_filters(zones.zones(), config.rules.input@, other) || mapping_filters(
            zones.zones(),
            config.rules.forward@,
            other,
        ))),
{
    lemma_xdp_faults(zones.zones(), config.xdp.rules@);
    law_overlaps_are_on_ingress(zones.zones(), config, error->interface@);
    law_overlaps_are_on_ingress(zones.zones(), config, other);
}

/// No XDP mapping is refused for an overlap by itself.
proof fn lemma_xdp_faults(zones: Seq<crate::zones::Zone>, rules: Seq<XdpRule>)
    ensures
        xdp_rules_fault(zones, rules) matches Some(fault) ==> !(fault is Overlap),
    decreases rules.len(),
{
    if rules.len() > 0 {
        lemma_xdp_faults(zones, rules.drop_last());
    }
}

} // verus!
