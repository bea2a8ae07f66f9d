use cidrwall::config::{
    zone_source, CleanupTarget, Config, ConfigError, Direction, Files, Nftables, RuleMapping, Rules,
    Runtime, Xdp, XdpMode, XdpRule, ZoneSource,
};
use cidrwall::rules::{render, AddressField, RenderedRule};
use cidrwall::zones::{Chain, ResolvedRule, ZoneEntry, ZoneError, ZoneValue, Zones};

fn texts(names: &[&str]) -> Vec<String> {
    names.iter().map(|name| name.to_string()).collect()
}

fn zones() -> Zones {
    Zones::from_map(vec![
        (
            "LAN".to_owned(),
            ZoneValue::Detail {
                interfaces: texts(&["eth1"]),
                local: false,
            },
        ),
        (
            "LOCAL".to_owned(),
            ZoneValue::Detail {
                interfaces: vec![],
                local: true,
            },
        ),
        ("WAN".to_owned(), ZoneValue::Interfaces(texts(&["eth0"]))),
    ])
    .unwrap()
}

fn mapping(blocklist: Direction, ingress: &[&str], egress: &[&str]) -> RuleMapping {
    RuleMapping {
        blocklist,
        ingress_zones: texts(ingress),
        egress_zones: texts(egress),
    }
}

fn no_rules() -> Rules {
    Rules {
        input: vec![],
        forward: vec![],
        output: vec![],
    }
}

fn config(rules: Rules, xdp: Xdp) -> Config {
    Config {
        files: Files {
            zones: None,
            inbound: Some("/lists/inbound.txt".to_owned()),
            outbound: Some("/lists/outbound.txt".to_owned()),
        },
        nftables: Nftables::new("cidrwall".to_owned(), -5),
        runtime: Runtime {
            debounce: 500,
            reconcile: 60_000,
        },
        rules,
        xdp,
    }
}

#[test]
fn resolves_multiple_mappings_and_interfaces() {
    let rules = Rules {
        input: vec![RuleMapping {
            blocklist: Direction::Inbound,
            ingress_zones: vec!["WAN".into()],
            egress_zones: vec![],
        }],
        forward: vec![],
        output: vec![],
    };
    assert_eq!(zones().resolve(&rules).unwrap()[0].ingress, vec!["eth0"]);
}

#[test]
fn rejects_local_forward_zone() {
    let rules = Rules {
        input: vec![],
        forward: vec![RuleMapping {
            blocklist: Direction::Inbound,
            ingress_zones: vec!["LOCAL".into()],
            egress_zones: vec!["WAN".into()],
        }],
        output: vec![],
    };
    assert!(zones()
        .resolve(&rules)
        .unwrap_err()
        .message()
        .contains("local zone"));
}

#[test]
fn forward_mapping_is_a_cross_product() {
    let mappings = vec![ResolvedRule {
        chain: Chain::Forward,
        blocklist: Direction::Inbound,
        ingress: vec!["wan0".into(), "wan1".into()],
        egress: vec!["lan0".into(), "lan1".into()],
    }];
    let rendered = render(&mappings);
    assert_eq!(rendered.len(), 4);
    assert!(rendered.iter().all(|r| r.address == AddressField::Source));
}

#[test]
fn rules_come_in_the_order_of_their_interfaces() {
    let rendered = render(&vec![
        ResolvedRule {
            chain: Chain::Forward,
            blocklist: Direction::Outbound,
            ingress: texts(&["a", "b"]),
            egress: texts(&["x", "y"]),
        },
        ResolvedRule {
            chain: Chain::Input,
            blocklist: Direction::Inbound,
            ingress: vec![],
            egress: vec![],
        },
    ]);
    let pairs: Vec<(Option<&str>, Option<&str>)> = rendered
        .iter()
        .map(|rule| (rule.ingress.as_deref(), rule.egress.as_deref()))
        .collect();
    assert_eq!(
        pairs,
        [
            (Some("a"), Some("x")),
            (Some("a"), Some("y")),
            (Some("b"), Some("x")),
            (Some("b"), Some("y")),
            (None, None),
        ]
    );
    assert_eq!(
        rendered[0],
        RenderedRule {
            chain: Chain::Forward,
            direction: Direction::Outbound,
            ingress: Some("a".to_owned()),
            egress: Some("x".to_owned()),
            address: AddressField::Destination,
        }
    );
}

#[test]
fn zone_expansion_is_sorted_and_without_repeats() {
    let zones = Zones::from_entries(vec![
        ZoneEntry {
            name: "A".to_owned(),
            interfaces: texts(&["eth2", "eth0", "eth2"]),
            local: false,
        },
        ZoneEntry {
            name: "B".to_owned(),
            interfaces: texts(&["eth1", "eth0"]),
            local: false,
        },
    ])
    .unwrap();
    assert_eq!(
        zones.interfaces(&texts(&["A", "B", "A"])).unwrap(),
        texts(&["eth0", "eth1", "eth2"])
    );
    assert_eq!(
        zones.interfaces(&texts(&["A", "C"])).unwrap_err(),
        ZoneError::Unknown { zone: "C".to_owned() }
    );
}

#[test]
fn bad_zones_are_refused() {
    let entry = |name: &str, interfaces: &[&str]| ZoneEntry {
        name: name.to_owned(),
        interfaces: texts(interfaces),
        local: false,
    };
    let refused = |entries: Vec<ZoneEntry>| Zones::from_entries(entries).unwrap_err();
    assert_eq!(refused(vec![entry(" \t", &["eth0"])]), ZoneError::EmptyName);
    assert_eq!(
        refused(vec![entry("WAN", &[])]),
        ZoneError::NoInterfaces { zone: "WAN".to_owned() }
    );
    assert_eq!(
        refused(vec![entry("WAN", &["eth0", ""])]),
        ZoneError::InvalidInterface { zone: "WAN".to_owned() }
    );
    assert_eq!(
        refused(vec![entry("WAN", &["eth\0"])]),
        ZoneError::InvalidInterface { zone: "WAN".to_owned() }
    );
    assert_eq!(
        refused(vec![entry("WAN", &["eth0"]), entry("WAN", &["eth1"])]).message(),
        "duplicate zone \"WAN\""
    );
    assert!(Zones::from_entries(vec![entry("local", &[])]).is_ok());
}

#[test]
fn mappings_must_suit_their_chain() {
    let zones = zones();
    let refused = |chain: Chain, rule: RuleMapping| zones.resolve_one(chain, &rule).unwrap_err();
    assert_eq!(
        refused(Chain::Input, mapping(Direction::Inbound, &["WAN"], &["LAN"])),
        ZoneError::InputEgress
    );
    assert_eq!(
        refused(Chain::Output, mapping(Direction::Outbound, &["WAN"], &["LAN"])),
        ZoneError::OutputIngress
    );
    assert_eq!(
        refused(Chain::Forward, mapping(Direction::Inbound, &["WAN"], &[])),
        ZoneError::ForwardIncomplete
    );
    assert_eq!(
        refused(Chain::Forward, mapping(Direction::Inbound, &["WAN"], &["LOCAL"])),
        ZoneError::LocalForward { zone: "LOCAL".to_owned() }
    );
    let forward = zones
        .resolve_one(Chain::Forward, &mapping(Direction::Inbound, &["WAN"], &["LAN"]))
        .unwrap();
    assert_eq!((forward.ingress, forward.egress), (texts(&["eth0"]), texts(&["eth1"])));
}

#[test]
fn a_referenced_list_needs_a_path() {
    let rules = Rules {
        input: vec![mapping(Direction::Inbound, &["WAN"], &[])],
        ..no_rules()
    };
    let mut config = config(rules, Xdp::default());
    config.files.outbound = None;
    assert_eq!(config.resolve_rules(&zones()).unwrap().len(), 1);
    config.files.inbound = None;
    assert_eq!(
        config.resolve_rules(&zones()).unwrap_err(),
        ConfigError::MissingPath(Direction::Inbound)
    );
    assert!(config.blocklist_path(Direction::Inbound).is_none());
    config.rules = no_rules();
    assert!(config.resolve_rules(&zones()).is_ok());
    config.xdp.rules = vec![XdpRule {
        blocklist: Direction::Inbound,
        ingress_zones: texts(&["WAN"]),
    }];
    assert!(config.resolve_rules(&zones()).is_err());
}

#[test]
fn xdp_interfaces_may_not_overlap_inbound_rules() {
    let xdp = Xdp {
        rules: vec![XdpRule {
            blocklist: Direction::Inbound,
            ingress_zones: texts(&["WAN", "LAN"]),
        }],
        ..Xdp::default()
    };
    let rules = Rules {
        output: vec![mapping(Direction::Outbound, &[], &["WAN"])],
        ..no_rules()
    };
    let mut config = config(rules, xdp);
    assert_eq!(
        config.resolve_xdp_interfaces(&zones()).unwrap(),
        texts(&["eth0", "eth1"])
    );
    config.rules.input = vec![mapping(Direction::Inbound, &["LAN"], &[])];
    assert_eq!(
        config.resolve_xdp_interfaces(&zones()).unwrap_err(),
        ConfigError::Overlap { interface: "eth1".to_owned() }
    );
    config.xdp.allow_nftables_overlap = true;
    assert!(config.resolve_xdp_interfaces(&zones()).is_ok());
    config.xdp.rules[0].blocklist = Direction::Outbound;
    assert_eq!(
        config.resolve_xdp_interfaces(&zones()).unwrap_err(),
        ConfigError::XdpBlocklist
    );
}

#[test]
fn zones_come_from_one_place() {
    let path = || Some("/zones.json".to_owned());
    let file = Ok(ZoneSource::File("/zones.json".to_owned()));
    assert_eq!(zone_source(true, None, None), Ok(ZoneSource::Inline));
    assert_eq!(zone_source(false, path(), None), file);
    assert_eq!(zone_source(true, None, path()), file);
    assert_eq!(zone_source(true, path(), None), Err(ConfigError::TwoZoneSources));
    assert_eq!(zone_source(false, None, None), Err(ConfigError::NoZoneSource));
}

#[test]
fn defaults_are_the_documented_ones() {
    let xdp = Xdp::default();
    assert_eq!(xdp.mode, XdpMode::Auto);
    assert_eq!(xdp.pin_path, "/sys/fs/bpf/cidrwall");
    assert_eq!((xdp.ipv4_max_entries, xdp.ipv6_max_entries), (5_000_000, 5_000_000));
    assert!(!xdp.cleanup_on_exit && !xdp.allow_nftables_overlap);
    let nftables = Nftables::new("t".to_owned(), 0);
    assert_eq!((nftables.populate_batch_elements, nftables.batch_page_bytes), (2000, 131072));
    assert!(CleanupTarget::All.includes_nftables() && CleanupTarget::All.includes_xdp());
    assert!(!CleanupTarget::Xdp.includes_nftables() && !CleanupTarget::Nftables.includes_xdp());
}

#[test]
fn configuration_errors_say_what_is_wrong() {
    assert_eq!(
        ConfigError::Overlap { interface: "eth0".to_owned() }.message(),
        "XDP interface \"eth0\" also appears in an nftables inbound rule"
    );
    assert_eq!(
        ConfigError::MissingPath(Direction::Outbound).message(),
        "outbound blocklist is referenced but has no configured path"
    );
    assert_eq!(
        ConfigError::Zone(ZoneError::EmptyName).message(),
        "zone has an empty name"
    );
}
