use cidrwall::batch::{
    activation_transaction, cut, deletion_transaction, marker_name, removal_transaction, Active,
    AddressSet, Element, Expression, Message, Transaction,
};
use cidrwall::blocklist::{parse, ParseError};
use cidrwall::config::{Config, Direction, Files, Nftables, RuleMapping, Rules, Runtime, Xdp};
use cidrwall::netlink::{
    cleanup_transaction, recognizes_layout, BackendError, IoFailure, NftnlBackend, Snapshot, ENOENT,
};
use cidrwall::rollout::{
    free_generation, generation_in_force, is_healthy, stale_sets, Action, Event, Rollout, Stage,
};
use cidrwall::rules::{render, AddressField, RenderedRule};
use cidrwall::wire::SetInfo;
use cidrwall::zones::{Chain, ZoneValue, Zones};

struct Packet {
    chain: Chain,
    ingress: &'static str,
    egress: &'static str,
    v6: bool,
    source: u128,
    destination: u128,
}

enum Loaded {
    Nothing,
    Interface(&'static str),
    Family(bool),
    Address(u128),
}

/// A kernel with one table.
#[derive(Default)]
struct Firewall {
    table: Option<String>,
    marked: bool,
    sets: Vec<(AddressSet, Vec<Element>)>,
    rules: Vec<(Chain, Vec<Expression>)>,
    sent: Vec<Transaction>,
    /// The transaction to refuse, counted from the next one, and the error number.
    refuse: Option<(usize, Option<i32>)>,
    /// How many elements the kernel loses of every set.
    lost: u32,
}

fn parts(element: &Element) -> (u128, bool) {
    match *element {
        Element::V4 { address, interval_end } => (u128::from(address), interval_end),
        Element::V6 { address, interval_end } => (address, interval_end),
    }
}

impl Firewall {
    fn run(&mut self, transaction: &Transaction) {
        for message in &transaction.messages {
            match message {
                Message::DeleteTable => *self = Self::default(),
                Message::AddTable => self.table = Some(transaction.table.clone()),
                Message::AddMarker => self.marked = true,
                Message::AddChain { .. } => {}
                Message::AddSet(set) => self.sets.push((*set, vec![])),
                Message::DeleteSet(set) => {
                    let lookup = Expression::Lookup(*set);
                    assert!(!self.rules.iter().any(|(_, rule)| rule.contains(&lookup)));
                    self.content(*set).clear();
                    self.sets.retain(|(name, _)| name != set);
                }
                Message::FlushChain(chain) => self.rules.retain(|(name, _)| name != chain),
                Message::AddElements { set, elements } => self.content(*set).extend(elements),
                Message::AddRule { chain, expressions } => {
                    self.rules.push((*chain, expressions.clone()));
                }
            }
        }
        self.sent.push(transaction.clone());
    }

    fn send(&mut self, transaction: &Transaction) -> Event {
        match self.refuse {
            Some((0, errno)) => {
                self.refuse = None;
                let message = "refused".to_owned();
                return Event::Refused(IoFailure { errno, message });
            }
            Some((n, errno)) => self.refuse = Some((n - 1, errno)),
            None => {}
        }
        self.run(transaction);
        Event::Accepted
    }

    fn listing(&self) -> Event {
        let Some(table) = &self.table else {
            return Event::Inspected { tables: vec![], sets: vec![] };
        };
        let info = |name: String, elements: u32| SetInfo {
            table: table.clone(),
            name,
            elements: Some(elements),
        };
        let starts = |elements: &Vec<Element>| {
            elements.iter().filter(|element| !parts(element).1).count() as u32
        };
        let mut sets: Vec<SetInfo> = self
            .sets
            .iter()
            .map(|(set, elements)| info(set.name(), starts(elements).saturating_sub(self.lost)))
            .collect();
        if self.marked {
            sets.push(info(marker_name().to_owned(), 0));
        }
        Event::Inspected { tables: vec![table.clone()], sets }
    }

    fn content(&mut self, set: AddressSet) -> &mut Vec<Element> {
        &mut self.sets.iter_mut().find(|(name, _)| *name == set).unwrap().1
    }

    /// The greatest boundary that is not above the address starts an interval.
    fn holds(&self, set: AddressSet, address: u128) -> bool {
        let elements = &self.sets.iter().find(|(name, _)| *name == set).unwrap().1;
        elements
            .iter()
            .map(parts)
            .filter(|(value, _)| *value <= address)
            .max()
            .is_some_and(|(_, end)| !end)
    }

    fn drops(&self, packet: &Packet) -> bool {
        self.rules
            .iter()
            .any(|(chain, rule)| *chain == packet.chain && self.rule_drops(rule, packet))
    }

    fn rule_drops(&self, rule: &[Expression], packet: &Packet) -> bool {
        let mut loaded = Loaded::Nothing;
        for expression in rule {
            let goes_on = match (expression, &loaded) {
                (Expression::MetaIngress, _) => {
                    loaded = Loaded::Interface(packet.ingress);
                    true
                }
                (Expression::MetaEgress, _) => {
                    loaded = Loaded::Interface(packet.egress);
                    true
                }
                (Expression::MetaFamily, _) => {
                    loaded = Loaded::Family(packet.v6);
                    true
                }
                (Expression::Payload { field, .. }, _) => {
                    loaded = Loaded::Address(match field {
                        AddressField::Source => packet.source,
                        AddressField::Destination => packet.destination,
                    });
                    true
                }
                (Expression::CompareInterface(name), Loaded::Interface(loaded)) => name == loaded,
                (Expression::CompareFamily { v6 }, Loaded::Family(family)) => v6 == family,
                (Expression::Lookup(set), Loaded::Address(address)) => self.holds(*set, *address),
                (Expression::Drop, _) => return true,
                _ => false,
            };
            if !goes_on {
                return false;
            }
        }
        false
    }
}

fn texts(names: &[&str]) -> Vec<String> {
    names.iter().map(|name| name.to_string()).collect()
}

fn config() -> Config {
    let mapping = |blocklist: Direction, ingress: &[&str], egress: &[&str]| RuleMapping {
        blocklist,
        ingress_zones: texts(ingress),
        egress_zones: texts(egress),
    };
    Config {
        files: Files {
            zones: None,
            inbound: Some("/in".to_owned()),
            outbound: Some("/out".to_owned()),
        },
        nftables: Nftables::new("cidrwall".to_owned(), 0),
        runtime: Runtime { debounce: 1, reconcile: 1 },
        rules: Rules {
            input: vec![mapping(Direction::Inbound, &["WAN"], &[])],
            forward: vec![mapping(Direction::Inbound, &["WAN"], &["LAN"])],
            output: vec![mapping(Direction::Outbound, &[], &[])],
        },
        xdp: Xdp::default(),
    }
}

fn zones() -> Zones {
    Zones::from_map(vec![
        ("LAN".to_owned(), ZoneValue::Interfaces(texts(&["lan0", "lan1"]))),
        ("WAN".to_owned(), ZoneValue::Interfaces(texts(&["wan0", "wan1"]))),
    ])
    .unwrap()
}

fn snapshot(inbound: &[&str], outbound: &[&str]) -> Snapshot {
    Snapshot {
        inbound: parse(&texts(inbound)).unwrap(),
        outbound: parse(&texts(outbound)).unwrap(),
    }
}

fn packet(chain: Chain, ingress: &'static str, egress: &'static str, source: u128) -> Packet {
    Packet {
        chain,
        ingress,
        egress,
        v6: false,
        source,
        destination: 0x0808_0808,
    }
}

fn rules(config: &Config) -> Vec<RenderedRule> {
    render(&config.resolve_rules(&zones()).unwrap())
}

/// Carries a request out against the kernel.
fn request(
    backend: &mut NftnlBackend,
    kernel: &mut Firewall,
    config: &Config,
    lists: &Snapshot,
    direction: Option<Direction>,
) -> Result<(), BackendError> {
    let rules = rules(config);
    let (mut rollout, mut action) = backend.begin(config, direction, true);
    loop {
        let event = match &action {
            Action::Finish => break,
            Action::Inspect => kernel.listing(),
            Action::Send(transaction) => kernel.send(transaction),
        };
        action = rollout.step(config, &rules, lists, event);
    }
    backend.finish(&rollout);
    rollout.result()
}

fn text_of(result: Result<(), BackendError>) -> String {
    result.unwrap_err().message()
}

#[test]
fn packets_are_dropped_exactly_where_a_mapping_covers_them() {
    let config = config();
    let lists = snapshot(&["10.0.0.0/9", "10.128.0.0/9", "255.0.0.0/8"], &["8.8.8.0/24", "::/0"]);
    let mut firewall = Firewall::default();
    request(&mut NftnlBackend::new(), &mut firewall, &config, &lists, None).unwrap();
    let (first, last) = (0x0a00_0000, 0x0aff_ffff);
    for address in [first, last, 0xff00_0000, 0xffff_ffff] {
        assert!(firewall.drops(&packet(Chain::Input, "wan1", "", address)));
        assert!(firewall.drops(&packet(Chain::Forward, "wan0", "lan1", address)));
    }
    for address in [0, first - 1, last + 1, 0xfeff_ffff] {
        assert!(!firewall.drops(&packet(Chain::Input, "wan1", "", address)));
    }
    assert!(!firewall.drops(&packet(Chain::Input, "lan0", "", first)));
    assert!(!firewall.drops(&packet(Chain::Forward, "wan0", "wan1", first)));
    assert!(!firewall.drops(&packet(Chain::Forward, "lan0", "lan1", first)));
    assert!(firewall.drops(&packet(Chain::Output, "", "any", 0)));
    let mut six = packet(Chain::Input, "wan0", "", first);
    six.v6 = true;
    assert!(!firewall.drops(&six));
    six.chain = Chain::Output;
    assert!(firewall.drops(&six));
}

#[test]
fn a_reload_replaces_one_list_and_leaves_the_other() {
    let config = config();
    let earlier = snapshot(&["10.0.0.0/8"], &["8.8.8.0/24"]);
    let later = snapshot(&["192.0.2.0/24", "198.51.100.0/24"], &["8.8.8.0/24"]);
    let mut firewall = Firewall::default();
    let mut backend = NftnlBackend::new();
    request(&mut backend, &mut firewall, &config, &earlier, None).unwrap();
    let sent = firewall.sent.len();
    request(&mut backend, &mut firewall, &config, &later, Some(Direction::Inbound)).unwrap();
    assert_eq!(firewall.sent.len(), sent + 4);
    for address in [0x0a00_0000, 0xc000_0200, 0xc000_02ff, 0xc000_0300, 0xc633_6400] {
        let packet = packet(Chain::Input, "wan0", "", address);
        assert_eq!(firewall.drops(&packet), address != 0x0a00_0000 && address != 0xc000_0300);
    }
    assert!(firewall.drops(&packet(Chain::Output, "", "", 0)));
    assert_eq!(firewall.sets.len(), 4);
    let mut restarted = NftnlBackend::default();
    request(&mut restarted, &mut firewall, &config, &later, Some(Direction::Inbound)).unwrap();
    assert!(firewall.drops(&packet(Chain::Output, "", "", 0)));
    assert_eq!(firewall.sets.len(), 4);
}

#[test]
fn a_refused_step_leaves_the_list_in_force() {
    let config = config();
    let earlier = snapshot(&["10.0.0.0/8"], &["8.8.8.0/24"]);
    let later = snapshot(&["192.0.2.0/24", "2001:db8::/32"], &["8.8.8.0/24"]);
    for refused in 0..4 {
        let mut firewall = Firewall::default();
        let mut backend = NftnlBackend::new();
        request(&mut backend, &mut firewall, &config, &earlier, None).unwrap();
        firewall.refuse = Some((refused, Some(28)));
        let inbound = Some(Direction::Inbound);
        let result = request(&mut backend, &mut firewall, &config, &later, inbound);
        assert_eq!(text_of(result), "netlink transaction failed: refused");
        assert!(firewall.drops(&packet(Chain::Input, "wan0", "", 0x0a00_0000)));
        assert!(!firewall.drops(&packet(Chain::Input, "wan0", "", 0xc000_0200)));
        assert_eq!(firewall.sets.len(), 4);
        request(&mut backend, &mut firewall, &config, &later, inbound).unwrap();
        assert!(firewall.drops(&packet(Chain::Input, "wan0", "", 0xc000_0200)));
    }
    let mut firewall = Firewall::default();
    let mut backend = NftnlBackend::new();
    request(&mut backend, &mut firewall, &config, &earlier, None).unwrap();
    firewall.refuse = Some((4, None));
    request(&mut backend, &mut firewall, &config, &later, Some(Direction::Inbound)).unwrap();
    assert!(firewall.drops(&packet(Chain::Input, "wan0", "", 0xc000_0200)));
    assert_eq!(firewall.sets.len(), 6);
    request(&mut backend, &mut firewall, &config, &later, Some(Direction::Inbound)).unwrap();
    assert_eq!(firewall.sets.len(), 4);
}

#[test]
fn sets_that_lost_elements_are_not_activated() {
    let config = config();
    let lists = snapshot(&["10.0.0.0/8"], &["8.8.8.0/24"]);
    let mut firewall = Firewall { lost: 1, ..Firewall::default() };
    let result = request(&mut NftnlBackend::new(), &mut firewall, &config, &lists, None);
    assert_eq!(
        text_of(result),
        "netlink transaction failed: staged inbound sets are missing or have the wrong number of elements"
    );
    assert!(firewall.rules.is_empty());
    assert!(firewall.sets.is_empty());
}

#[test]
fn a_table_without_the_marker_is_left_alone() {
    let config = config();
    let lists = snapshot(&["10.0.0.0/8"], &[]);
    let mut firewall = Firewall { table: Some("cidrwall".to_owned()), ..Firewall::default() };
    let result = request(&mut NftnlBackend::new(), &mut firewall, &config, &lists, None);
    assert_eq!(
        text_of(result),
        "netlink transaction failed: table inet cidrwall exists without the cidrwall layout marker"
    );
    assert!(firewall.sent.is_empty());
}

#[test]
fn a_missing_table_is_set_up_with_every_list() {
    let config = config();
    let lists = snapshot(&["10.0.0.0/8"], &["8.8.8.0/24"]);
    let mut firewall = Firewall::default();
    let outbound = Some(Direction::Outbound);
    request(&mut NftnlBackend::new(), &mut firewall, &config, &lists, outbound).unwrap();
    assert!(firewall.drops(&packet(Chain::Input, "wan0", "", 0x0a00_0000)));
    assert_eq!(
        firewall.sent[0].messages,
        [
            Message::AddTable,
            Message::AddMarker,
            Message::AddChain { chain: Chain::Input, priority: 0 },
            Message::AddChain { chain: Chain::Forward, priority: 0 },
            Message::AddChain { chain: Chain::Output, priority: 0 },
        ]
    );
    let mut backend = NftnlBackend::new();
    request(&mut backend, &mut firewall, &config, &lists, None).unwrap();
    firewall.refuse = Some((0, Some(ENOENT)));
    request(&mut backend, &mut firewall, &config, &lists, outbound).unwrap();
    let (mut rollout, action) = backend.begin(&config, outbound, false);
    assert_eq!(action, Action::Inspect);
    let nothing = Event::Inspected { tables: vec![], sets: vec![] };
    assert_eq!(rollout.step(&config, &rules(&config), &lists, nothing), Action::Finish);
    assert_eq!(
        text_of(rollout.result()),
        "netlink transaction failed: kernel does not support nftables batches"
    );
}

#[test]
fn a_request_that_cannot_be_sent_asks_nothing() {
    let mut config = config();
    let backend = NftnlBackend::new();
    let (rollout, action) = backend.begin(&config, None, false);
    assert_eq!((action, rollout.stage), (Action::Finish, Stage::Ended));
    assert_eq!(
        text_of(rollout.result()),
        "netlink transaction failed: kernel does not support nftables batches"
    );
    assert_eq!(removal_transaction(&config).unwrap().messages, [Message::DeleteTable]);
    config.nftables.table = "a\0b".to_owned();
    assert!(removal_transaction(&config).is_none());
    let active = Active { inbound: None, outbound: None };
    let (rollout, action) = Rollout::new(&config, Some(Direction::Inbound), true, active);
    assert_eq!(action, Action::Finish);
    assert_eq!(
        rollout.result(),
        Err(BackendError::Netlink(IoFailure {
            errno: None,
            message: "table name contains NUL".to_owned(),
        }))
    );
}

#[test]
fn populations_are_bounded_and_lose_nothing() {
    let mut config = config();
    config.nftables.populate_batch_elements = 3;
    let lists = snapshot(
        &["10.0.0.0/8", "12.0.0.0/8", "14.0.0.0/8", "254.0.0.0/7", "2001:db8::/32"],
        &[],
    );
    assert_eq!(cut(&lists.inbound.ipv4, 0, 4), 2);
    assert_eq!(cut(&lists.inbound.ipv4, 2, 3), 4);
    assert_eq!(cut(&lists.inbound.ipv4, 0, 1), 1);
    let mut firewall = Firewall::default();
    request(&mut NftnlBackend::new(), &mut firewall, &config, &lists, None).unwrap();
    let populations: Vec<(bool, usize)> = firewall
        .sent
        .iter()
        .flat_map(|transaction| &transaction.messages)
        .filter_map(|message| match message {
            Message::AddElements { set, elements } => Some((set.v6, elements.len())),
            _ => None,
        })
        .collect();
    assert_eq!(populations, [(false, 2), (false, 2), (false, 3), (true, 2)]);
    assert!(firewall.drops(&packet(Chain::Input, "wan0", "", 0xffff_ffff)));
    assert!(!firewall.drops(&packet(Chain::Input, "wan0", "", 0x0b00_0000)));
}

#[test]
fn activation_replaces_all_rules() {
    let set = AddressSet { direction: Direction::Outbound, v6: true, generation: 17 };
    assert_eq!((set.name().as_str(), set.id()), ("outbound_v6_17", 4));
    let rule = RenderedRule {
        chain: Chain::Forward,
        direction: Direction::Outbound,
        ingress: Some("eth1".to_owned()),
        egress: Some("eth0".to_owned()),
        address: AddressField::Destination,
    };
    let config = config();
    let active = Active { inbound: None, outbound: Some(17) };
    let inbound = RenderedRule { direction: Direction::Inbound, ..rule.clone() };
    let transaction = activation_transaction(&config, &vec![rule, inbound], active);
    assert_eq!((transaction.table.as_str(), transaction.page_bytes), ("cidrwall", 131072));
    assert_eq!(transaction.messages.len(), 5);
    assert_eq!(transaction.messages[1], Message::FlushChain(Chain::Forward));
    assert_eq!(
        transaction.messages[4],
        Message::AddRule {
            chain: Chain::Forward,
            expressions: vec![
                Expression::MetaIngress,
                Expression::CompareInterface("eth1".to_owned()),
                Expression::MetaEgress,
                Expression::CompareInterface("eth0".to_owned()),
                Expression::MetaFamily,
                Expression::CompareFamily { v6: true },
                Expression::Payload { v6: true, field: AddressField::Destination },
                Expression::Lookup(set),
                Expression::Drop,
            ],
        }
    );
    let deletion = deletion_transaction(&config, &vec![set]);
    assert_eq!(deletion.messages, [Message::DeleteSet(set)]);
}

#[test]
fn generations_are_told_apart_by_their_sets() {
    let table = "cidrwall".to_owned();
    let info = |name: &str, elements: u32| SetInfo {
        table: table.clone(),
        name: name.to_owned(),
        elements: Some(elements),
    };
    let mut sets = vec![info("inbound_v4_0", 2), info("inbound_v6_0", 0), info("inbound_v6_1", 1)];
    let inbound = Direction::Inbound;
    assert!(!recognizes_layout(&sets, &table));
    sets.push(info("cidrwall_layout_1", 0));
    assert!(recognizes_layout(&sets, &table));
    assert!(!recognizes_layout(&sets, &"other".to_owned()));
    let mut settings = config();
    assert_eq!(
        cleanup_transaction(&sets, &settings).unwrap().messages,
        [Message::DeleteTable]
    );
    assert!(cleanup_transaction(&sets[..3].to_vec(), &settings).is_none());
    settings.nftables.table = "other".to_owned();
    assert!(cleanup_transaction(&sets, &settings).is_none());
    assert_eq!(free_generation(&sets, &table, inbound), Some(2));
    assert_eq!(free_generation(&sets, &table, Direction::Outbound), Some(0));
    assert_eq!(generation_in_force(None, &sets, &table, inbound), Some(0));
    assert_eq!(generation_in_force(Some(1), &sets, &table, inbound), Some(0));
    let set = |v6: bool, generation: u8| AddressSet { direction: inbound, v6, generation };
    assert_eq!(stale_sets(&sets, &table, inbound, 1), [set(false, 0), set(true, 0)]);
    assert_eq!(stale_sets(&sets, &table, inbound, 0), [set(true, 1)]);
    let list = parse(&texts(&["10.0.0.0/8", "12.0.0.0/8"])).unwrap();
    assert!(is_healthy(&sets, &table, inbound, 0, &list));
    assert!(!is_healthy(&sets, &table, inbound, 1, &list));
    sets[0].elements = None;
    assert!(!is_healthy(&sets, &table, inbound, 0, &list));
    sets.push(info("inbound_v4_1", 1));
    assert_eq!(generation_in_force(None, &sets, &table, inbound), None);
    assert_eq!(generation_in_force(Some(1), &sets, &table, inbound), Some(1));
    let all: Vec<SetInfo> = (0..=255).map(|g| info(&set(false, g).name(), 0)).collect();
    assert_eq!(free_generation(&all, &table, inbound), None);
}

#[test]
fn read_failures_name_the_line() {
    let error = ParseError::Io { line: 12, source: "broken pipe".to_owned() };
    assert_eq!(
        error.message(),
        "I/O while reading blocklist at line 12: broken pipe"
    );
}
