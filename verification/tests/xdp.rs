use cidrwall::blocklist::{AddressInterval, AddressPrefix};
use cidrwall::config::XdpMode;
use cidrwall::control::{
    incompatible_message, may_clean, startup, CleanupRefusal, Control, Startup, LAYOUT_VERSION,
    SLOT_COUNT,
};
use cidrwall::links::{
    add_interface, attach_modes, check_name, index_path, link_disposition, link_name, links_directory,
    map_names, missing_links, parse_number, tries_next_mode, unsupported_native, AttachMode, Cause,
    Interface, InterfaceError, LinkDisposition, LinkRound,
};
use cidrwall::packet::{action, lookup, octets_v4, octets_v6, source, Lookup, Source};
use cidrwall::reload::{Action, Event, Replacement};
use cidrwall::xdp::{StageError, Staging, XdpReload};

fn control(slot: u32) -> Control {
    Control {
        layout_version: LAYOUT_VERSION,
        active_slot: slot,
    }
}

fn prefix(address: u32, prefix_len: u8) -> AddressPrefix {
    AddressPrefix::V4 { address, prefix_len }
}

#[test]
fn startup_keeps_or_initializes_the_control_map() {
    assert_eq!(startup(Control::default()), Some(Startup::Initialize(control(0))));
    assert_eq!(startup(control(1)), Some(Startup::Keep(control(1))));
    assert_eq!(startup(control(SLOT_COUNT)), None);
    let newer = Control { layout_version: 2, active_slot: 0 };
    assert_eq!(startup(newer), None);
    assert_eq!(
        incompatible_message("/p", newer),
        "/p contains an incompatible XDP map layout (version=2, active_slot=0)"
    );
    assert_eq!(may_clean(None), Err(CleanupRefusal::NoState));
    assert_eq!(may_clean(Some(newer)), Err(CleanupRefusal::Incompatible));
    assert_eq!(may_clean(Some(control(1))), Ok(()));
    assert_eq!(CleanupRefusal::NoState.message("/p"), "no cidrwall XDP state exists at /p");
}

fn ethernet(types: &[u16], payload: &[u8]) -> Vec<u8> {
    let mut frame = vec![0u8; 12];
    for (index, kind) in types.iter().enumerate() {
        frame.extend_from_slice(&kind.to_be_bytes());
        if index + 1 < types.len() {
            frame.extend_from_slice(&[0x12, 0x34]);
        }
    }
    frame.extend_from_slice(payload);
    frame
}

fn ipv4(source: [u8; 4]) -> Vec<u8> {
    let mut packet = vec![0u8; 20];
    packet[0] = 0x45;
    packet[12..16].copy_from_slice(&source);
    packet
}

fn ipv6(source: [u8; 16]) -> Vec<u8> {
    let mut packet = vec![0u8; 40];
    packet[0] = 0x60;
    packet[8..24].copy_from_slice(&source);
    packet
}

#[test]
fn source_addresses_are_found_behind_tags() {
    let v4 = Source::V4 { address: 0x0a00_0001 };
    let payload = ipv4([10, 0, 0, 1]);
    assert_eq!(source(&ethernet(&[0x0800], &payload)), v4);
    assert_eq!(source(&ethernet(&[0x8100, 0x0800], &payload)), v4);
    assert_eq!(source(&ethernet(&[0x88a8, 0x8100, 0x0800], &payload)), v4);
    assert_eq!(
        source(&ethernet(&[0x8100, 0x8100, 0x8100, 0x0800], &payload)),
        Source::Absent
    );
    let mut address = [0u8; 16];
    address[0] = 0x20;
    address[15] = 7;
    assert_eq!(
        source(&ethernet(&[0x86dd], &ipv6(address))),
        Source::V6 { address: (0x20 << 120) | 7 }
    );
}

#[test]
fn malformed_packets_have_no_source() {
    let payload = ipv4([10, 0, 0, 1]);
    let frame = ethernet(&[0x0800], &payload);
    assert_eq!(source(&frame[..frame.len() - 1]), Source::Absent);
    assert_eq!(source(&frame[..13]), Source::Absent);
    assert_eq!(source(&[]), Source::Absent);
    let mut short_header = frame.clone();
    short_header[14] = 0x44;
    assert_eq!(source(&short_header), Source::Absent);
    let mut wrong_version = frame.clone();
    wrong_version[14] = 0x65;
    assert_eq!(source(&wrong_version), Source::Absent);
    let six = ethernet(&[0x86dd], &ipv6([0; 16]));
    assert_eq!(source(&six[..six.len() - 1]), Source::Absent);
    assert_eq!(source(&ethernet(&[0x8100], &[0, 0, 8])), Source::Absent);
    assert_eq!(source(&ethernet(&[0x0806], &payload)), Source::Absent);
}

#[test]
fn the_active_slot_selects_the_table() {
    let frame = ethernet(&[0x0800], &ipv4([1, 2, 3, 4]));
    let expected = |second: bool| Lookup::V4 { second, address: 0x0102_0304 };
    assert_eq!(lookup(&frame, None), expected(false));
    assert_eq!(lookup(&frame, Some(control(0))), expected(false));
    assert_eq!(lookup(&frame, Some(control(1))), expected(true));
    assert_eq!(lookup(&frame[..20], Some(control(1))), Lookup::Pass);
    assert_eq!((action(true), action(false)), (1, 2));
}

#[test]
fn keys_are_in_network_byte_order() {
    assert_eq!(octets_v4(0x0102_0304), [1, 2, 3, 4]);
    assert_eq!(octets_v4(u32::MAX), [255; 4]);
    let address = 0x2001_0db8_0000_0000_0000_0000_0000_0a0b;
    assert_eq!(octets_v6(address), u128::to_be_bytes(address));
    assert_eq!(octets_v6(u128::MAX), [255; 16]);
}

#[test]
fn staging_counts_prefixes_per_family() {
    let mut staging = Staging::new(2, 1);
    let two = AddressInterval::V4 { first: 1, after_last: Some(4) };
    assert_eq!(staging.stage(two).unwrap(), [prefix(1, 32), prefix(2, 31)]);
    let one = AddressInterval::V4 { first: 8, after_last: Some(9) };
    let error = staging.stage(one).unwrap_err();
    assert_eq!(error.message(), "XDP IPv4 map capacity exceeded (2)");
    assert_eq!((staging.count(false), staging.count(true)), (2, 0));
    let six = AddressInterval::V6 { first: 0, after_last: None };
    assert_eq!(staging.stage(six).unwrap().len(), 1);
    assert!(matches!(
        staging.stage(six),
        Err(StageError::Capacity { v6: true, max_entries: 1 })
    ));
}

#[test]
fn a_list_is_staged_into_the_other_slot() {
    let mut reload = XdpReload::new(control(1), 2, 100, 100);
    assert_eq!(reload.staging_slot(), 0);
    let mut staged = Vec::new();
    for line in ["# x", "10.0.0.0/32", "10.0.0.2/32", "10.0.0.4/32"] {
        staged.extend(reload.push_line(line).unwrap());
    }
    assert_eq!(reload.count(false), staged.len() as u64);
    let (rest, selected) = reload.finish().unwrap();
    staged.extend(rest);
    assert_eq!(
        staged,
        [prefix(0x0a00_0000, 32), prefix(0x0a00_0002, 32), prefix(0x0a00_0004, 32)]
    );
    assert_eq!(selected, control(0));
    let mut refused = XdpReload::new(control(0), 2, 100, 100);
    let error = refused.push_line("10.0.0.1/8").unwrap_err();
    assert!(matches!(&error, StageError::Parse(_)));
    assert!(error.message().contains("line 1"));
}

struct Tables {
    control: Control,
    slots: [Vec<AddressPrefix>; 2],
    fail: Option<&'static str>,
}

fn run(tables: &mut Tables, lines: &[&str], max: u32) -> Result<(), Option<StageError>> {
    let mut lines = lines.iter();
    let (mut replacement, mut next) = Replacement::new(tables.control, 4, max, max);
    loop {
        let event = match next {
            Action::Clear(slot) => {
                tables.slots[slot as usize].clear();
                if tables.fail == Some("clear") { Event::Failed } else { Event::Done }
            }
            Action::ReadLine => match lines.next() {
                Some(line) => Event::Line(line.to_string()),
                None if tables.fail == Some("read") => Event::Failed,
                None => Event::End,
            },
            Action::Insert { slot, prefixes } => {
                assert_ne!(slot, tables.control.active_slot);
                tables.slots[slot as usize].extend(prefixes);
                if tables.fail == Some("insert") { Event::Failed } else { Event::Done }
            }
            Action::Activate(control) => {
                if tables.fail == Some("activate") {
                    Event::Failed
                } else {
                    tables.control = control;
                    Event::Done
                }
            }
            Action::Succeed => return Ok(()),
            Action::Fail(error) => return Err(error),
        };
        next = replacement.step(event);
    }
}

fn tables() -> Tables {
    Tables {
        control: control(0),
        slots: [vec![prefix(7, 32)], vec![prefix(9, 32)]],
        fail: None,
    }
}

#[test]
fn a_replacement_switches_slots_when_it_is_complete() {
    let mut tables = tables();
    run(&mut tables, &["10.0.0.0/8", "", "11.0.0.0/8"], 10).unwrap();
    assert_eq!(tables.control, control(1));
    assert_eq!(tables.slots, [vec![], vec![prefix(0x0a00_0000, 7)]]);
    run(&mut tables, &["192.0.2.0/24"], 10).unwrap();
    assert_eq!(tables.control, control(0));
    assert_eq!(tables.slots, [vec![prefix(0xc000_0200, 24)], vec![]]);
}

#[test]
fn a_failed_replacement_leaves_the_active_slot() {
    for fail in ["clear", "read", "insert", "activate"] {
        let mut tables = tables();
        tables.fail = Some(fail);
        assert!(matches!(run(&mut tables, &["10.0.0.0/8"], 10), Err(None)), "{fail}");
        assert_eq!(tables.control, control(0));
        assert_eq!(tables.slots[0], [prefix(7, 32)]);
    }
    let mut refused = tables();
    let error = run(&mut refused, &["10.0.0.0/8", "nonsense"], 10).unwrap_err().unwrap();
    assert!(matches!(error, StageError::Parse(_)));
    assert_eq!((refused.control, refused.slots[1].len()), (control(0), 0));
    let mut full = tables();
    let error = run(&mut full, &["10.0.0.0/32", "10.0.0.2/32"], 1).unwrap_err().unwrap();
    assert!(matches!(error, StageError::Capacity { v6: false, max_entries: 1 }));
    assert_eq!((full.control, full.slots[0].len()), (control(0), 1));
}

fn interface(ifindex: u32, name: &str) -> Interface {
    Interface {
        ifindex,
        name: name.to_owned(),
    }
}

#[test]
fn interfaces_are_known_by_index() {
    let mut interfaces = Vec::new();
    add_interface(&mut interfaces, &"b".to_owned(), " 7\n").unwrap();
    add_interface(&mut interfaces, &"a".to_owned(), "3").unwrap();
    add_interface(&mut interfaces, &"c".to_owned(), "5\n").unwrap();
    assert_eq!(interfaces, [interface(3, "a"), interface(5, "c"), interface(7, "b")]);
    assert_eq!(
        add_interface(&mut interfaces, &"d".to_owned(), "5").unwrap_err().message(),
        "multiple XDP interfaces resolved to ifindex 5"
    );
    assert_eq!(
        add_interface(&mut interfaces, &"d".to_owned(), "x"),
        Err(InterfaceError::NotAnIndex("d".to_owned()))
    );
    assert_eq!(interfaces.len(), 3);
    assert!(check_name(&"eth0.5".to_owned()).is_ok());
    for name in ["a/b", ".", ".."] {
        assert_eq!(
            check_name(&name.to_owned()),
            Err(InterfaceError::InvalidName(name.to_owned()))
        );
    }
    assert_eq!(
        InterfaceError::InvalidName("a/b".to_owned()).message(),
        "invalid interface name \"a/b\""
    );
    assert_eq!(
        InterfaceError::NotAnIndex("eth0".to_owned()).message(),
        "read interface index from /sys/class/net/eth0/ifindex"
    );
    for name in ["eth0", "", "eth0.5"] {
        let path = std::path::Path::new("/sys/class/net").join(name).join("ifindex");
        assert_eq!(index_path(&name.to_owned()), path.to_str().unwrap());
    }
}

#[test]
fn numbers_are_read_as_the_standard_library_reads_them() {
    for text in [
        "0", "7", "+7", "007", "4294967295", "4294967296", "99999999999999999999", "", "+", "-1",
        "-0", "1x", " 1", "1 ", "++1", "\u{661}",
    ] {
        assert_eq!(parse_number(text), text.parse::<u32>().ok(), "{text:?}");
    }
    assert_eq!(parse_number(&link_name(u32::MAX)), Some(u32::MAX));
}

#[test]
fn pins_are_kept_removed_or_ignored() {
    let interfaces = vec![interface(3, "a")];
    assert_eq!(link_disposition(Some("3"), &interfaces), LinkDisposition::Keep(3));
    assert_eq!(link_disposition(Some("4"), &interfaces), LinkDisposition::Remove(4));
    assert_eq!(link_disposition(Some("readme"), &interfaces), LinkDisposition::Ignore);
    assert_eq!(link_disposition(None, &interfaces), LinkDisposition::Ignore);
    assert_eq!(map_names(), ["CONTROL", "IPV4_A", "IPV4_B", "IPV6_A", "IPV6_B"]);
    assert_eq!(links_directory(), "links");
}

#[test]
fn a_failed_round_rolls_its_own_links_back() {
    let interfaces = vec![interface(3, "a"), interface(5, "b"), interface(7, "c")];
    let mut round = LinkRound::new(&interfaces, &vec![5]);
    assert_eq!(missing_links(&interfaces, &vec![5]).len(), 2);
    assert_eq!(round.next(), Some(&interface(3, "a")));
    assert_eq!(round.failed(), []);
    round.succeeded();
    assert_eq!(round.next(), Some(&interface(7, "c")));
    assert_eq!(round.failed(), [3]);
    round.succeeded();
    assert_eq!(round.next(), None);
}

#[test]
fn generic_mode_follows_only_unsupported_native_mode() {
    assert_eq!(attach_modes(XdpMode::Auto), [AttachMode::Driver, AttachMode::Skb]);
    assert_eq!(attach_modes(XdpMode::Native), [AttachMode::Driver]);
    assert_eq!(attach_modes(XdpMode::Generic), [AttachMode::Skb]);
    let unsupported = vec![Cause::Other, Cause::System(Some(95)), Cause::System(Some(1))];
    let busy = vec![Cause::System(Some(16)), Cause::System(Some(95))];
    assert!(unsupported_native(&unsupported));
    assert!(!unsupported_native(&busy));
    assert!(!unsupported_native(&vec![Cause::Other, Cause::System(None)]));
    assert!(unsupported_native(&vec![Cause::System(Some(22))]));
    assert!(unsupported_native(&vec![Cause::System(Some(45))]));
    assert!(tries_next_mode(XdpMode::Auto, 0, &unsupported));
    assert!(!tries_next_mode(XdpMode::Auto, 0, &busy));
    assert!(!tries_next_mode(XdpMode::Auto, 1, &unsupported));
    assert!(!tries_next_mode(XdpMode::Native, 0, &unsupported));
}
