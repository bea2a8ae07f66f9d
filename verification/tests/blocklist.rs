use cidrwall::blocklist::{
    interval_prefixes, parse, stream_chunks, AddressInterval, AddressPrefix, ChunkStream,
    ParseError, Reason, StreamStats,
};

fn v4(text: &str) -> u32 {
    let net: ipnet::Ipv4Net = format!("{text}/32").parse().unwrap();
    u32::from(net.addr())
}

fn v6(text: &str) -> u128 {
    let net: ipnet::Ipv6Net = format!("{text}/128").parse().unwrap();
    u128::from(net.addr())
}

fn lines(text: &str) -> Vec<String> {
    text.lines().map(str::to_owned).collect()
}

fn read(
    text: &str,
    limit: usize,
) -> Result<(Vec<Vec<AddressInterval>>, StreamStats), ParseError> {
    let (chunks, outcome) = stream_chunks(&lines(text), limit);
    outcome.map(|stats| (chunks, stats))
}

#[test]
fn streams_canonical_mixed_lists_and_coalesces_adjacency() {
    let (chunks, stats) = read(
        "# generated\n10.0.0.0/25\n10.0.0.128/25\n2001:db8::/127\n",
        100,
    )
    .unwrap();
    assert_eq!(stats.cidrs, 3);
    assert_eq!(stats.ipv4_intervals, 1);
    assert_eq!(stats.ipv6_intervals, 1);
    assert_eq!(chunks.len(), 2);
    assert_eq!(
        chunks[0],
        vec![AddressInterval::V4 {
            first: v4("10.0.0.0"),
            after_last: Some(v4("10.0.1.0")),
        }]
    );
}

#[test]
fn respects_boundary_element_limit() {
    let (chunks, _) = read("10.0.0.0/32\n10.0.0.2/32\n10.0.0.4/32\n", 2).unwrap();
    assert_eq!(chunks.len(), 3);
    assert!(chunks.iter().all(|chunk| {
        chunk
            .iter()
            .map(|interval| interval.boundary_elements())
            .sum::<usize>()
            <= 2
    }));
}

#[test]
fn rejects_noncanonical_input() {
    for (text, line) in [
        ("10.0.0.7/24\n", 1),
        ("10.0.0.2/32\n10.0.0.0/32\n", 2),
        ("10.0.0.0/32\n10.0.0.0/32\n", 2),
        ("2001:db8::/128\n10.0.0.0/32\n", 2),
    ] {
        let error = read(text, 100).unwrap_err().message();
        assert!(error.contains(&format!("line {line}")), "{error}");
    }
}

#[test]
fn handles_address_space_end_with_one_boundary() {
    let (chunks, stats) = read("255.255.255.255/32\n", 1).unwrap();
    assert_eq!(stats.ipv4_intervals, 1);
    assert_eq!(stats.ipv4_boundaries, 1);
    assert_eq!(chunks[0][0].boundary_elements(), 1);
}

#[test]
fn decomposes_intervals_into_minimal_prefixes() {
    assert_eq!(
        interval_prefixes(AddressInterval::V4 {
            first: v4("10.0.0.0"),
            after_last: Some(v4("10.0.1.0")),
        }),
        [AddressPrefix::V4 {
            address: v4("10.0.0.0"),
            prefix_len: 24
        }]
    );
    assert_eq!(
        interval_prefixes(AddressInterval::V6 {
            first: 0,
            after_last: None,
        }),
        [AddressPrefix::V6 {
            address: 0,
            prefix_len: 0
        }]
    );
}

#[test]
fn decomposes_an_unaligned_interval() {
    assert_eq!(
        interval_prefixes(AddressInterval::V4 {
            first: v4("10.0.0.1"),
            after_last: Some(v4("10.0.0.6")),
        }),
        [
            AddressPrefix::V4 { address: v4("10.0.0.1"), prefix_len: 32 },
            AddressPrefix::V4 { address: v4("10.0.0.2"), prefix_len: 31 },
            AddressPrefix::V4 { address: v4("10.0.0.4"), prefix_len: 31 },
        ]
    );
    assert_eq!(
        interval_prefixes(AddressInterval::V6 {
            first: v6("ffff:ffff:ffff:ffff:ffff:ffff:ffff:fffd"),
            after_last: None,
        }),
        [
            AddressPrefix::V6 { address: u128::MAX - 2, prefix_len: 128 },
            AddressPrefix::V6 { address: u128::MAX - 1, prefix_len: 127 },
        ]
    );
    assert_eq!(
        interval_prefixes(AddressInterval::V4 { first: 0, after_last: None }),
        [AddressPrefix::V4 { address: 0, prefix_len: 0 }]
    );
}

#[test]
fn refusals_name_the_line_the_text_and_the_reason() {
    let error = read("# x\n\n 10.0.0.7/24 \n", 100).unwrap_err();
    assert!(matches!(
        &error,
        ParseError::NonCanonical { line: 3, text, reason: Reason::HostBits } if text == "10.0.0.7/24"
    ));
    let error = read("10.0.0.2/32\n10.0.0.0/32\n", 100).unwrap_err();
    assert!(matches!(error, ParseError::NonCanonical { reason: Reason::NotAscending, .. }));
    let error = read("2001:db8::/128\n10.0.0.0/32\n", 100).unwrap_err();
    assert!(matches!(error, ParseError::NonCanonical { reason: Reason::Ipv4AfterIpv6, .. }));
    let error = read("10.0.0.0\n", 100).unwrap_err();
    assert!(matches!(&error, ParseError::Invalid { line: 1, text, .. } if text == "10.0.0.0"));
    assert_eq!(
        error.message(),
        "invalid CIDR at line 1: \"10.0.0.0\": invalid IP address syntax"
    );
}

#[test]
fn blank_lines_and_comments_hold_no_entries() {
    let (chunks, stats) = read("\n  \n# 10.0.0.0/8\n\t# x\n", 5).unwrap();
    assert_eq!(chunks.len(), 0);
    assert_eq!(stats, StreamStats::default());
}

#[test]
fn chunks_complete_before_a_refused_line_are_handed_out() {
    let (chunks, outcome) =
        stream_chunks(&lines("10.0.0.0/32\n10.0.0.2/32\n10.0.0.4/32\nnonsense\n"), 2);
    assert!(outcome.is_err());
    assert_eq!(
        chunks,
        vec![
            vec![AddressInterval::V4 {
                first: v4("10.0.0.0"),
                after_last: Some(v4("10.0.0.1")),
            }],
            vec![AddressInterval::V4 {
                first: v4("10.0.0.2"),
                after_last: Some(v4("10.0.0.3")),
            }],
        ]
    );
}

#[test]
fn chunks_joined_are_the_intervals() {
    let text = "10.0.0.0/24\n10.0.1.0/24\n10.0.4.0/30\n10.0.5.0/24\n2001:db8::/32\n2001:db9::/33\n";
    let whole = parse(&lines(text)).unwrap();
    let (chunks, stats) = read(text, 4).unwrap();
    let flat: Vec<AddressInterval> = chunks.into_iter().flatten().collect();
    let expected: Vec<AddressInterval> =
        whole.ipv4.iter().chain(whole.ipv6.iter()).copied().collect();
    assert_eq!(flat, expected);
    assert_eq!(whole.ipv4.len(), 3);
    assert_eq!(whole.ipv6.len(), 1);
    assert_eq!(stats.ipv4_boundaries, 6);
    assert_eq!(stats.ipv6_boundaries, 2);
}

#[test]
fn a_stream_accepts_lines_one_by_one() {
    let mut stream = ChunkStream::new(2);
    assert_eq!(stream.push_line("10.0.0.0/32").unwrap().len(), 0);
    assert_eq!(stream.push_line("10.0.0.2/32").unwrap().len(), 1);
    assert_eq!(stream.push_line("10.0.0.4/32").unwrap().len(), 1);
    assert!(stream.push_line("10.0.0.4/32").is_err());
    let (rest, stats) = stream.finish();
    assert_eq!(rest.len(), 1);
    assert_eq!(stats.cidrs, 3);
}

#[test]
fn streaming_the_prefixes_of_an_interval_gives_it_back() {
    let intervals = [
        AddressInterval::V4 { first: v4("10.0.0.3"), after_last: Some(v4("10.0.1.7")) },
        AddressInterval::V4 { first: v4("0.0.0.1"), after_last: None },
        AddressInterval::V6 { first: v6("2001:db8::5"), after_last: Some(v6("2001:db8::1:0")) },
        AddressInterval::V6 { first: 0, after_last: None },
    ];
    for interval in intervals {
        let prefixes = interval_prefixes(interval);
        let text: Vec<String> = prefixes
            .iter()
            .map(|prefix| match *prefix {
                AddressPrefix::V4 { address, prefix_len } => {
                    ipnet::Ipv4Net::new(address.into(), prefix_len).unwrap().to_string()
                }
                AddressPrefix::V6 { address, prefix_len } => {
                    ipnet::Ipv6Net::new(address.into(), prefix_len).unwrap().to_string()
                }
            })
            .collect();
        for limit in [1, 2, 2000] {
            let (chunks, stats) = read(&text.join("\n"), limit).unwrap();
            assert_eq!(chunks, [[interval]]);
            assert_eq!(stats.cidrs, prefixes.len() as u64);
        }
    }
}
