//! Blocklists: newline-delimited CIDR entries, IPv4 before IPv6.
//!
//! A list is read line by line. Adjacent entries are coalesced into intervals, and the intervals
//! are handed out in chunks of a bounded size. `ChunkStream` takes one line at a time, so that a
//! list never has to be held in memory; `stream_chunks` and `parse` take all lines of a list and
//! hand out all of its intervals.
pub use crate::address::interval_prefixes;
pub use crate::address::AddressInterval;
pub use crate::address::AddressPrefix;
use crate::address::Span;
use crate::bits::power_u128;
use crate::layout::Chunks;
use crate::text::decimal;
use crate::text::quoted;
use vstd::arithmetic::power2::*;
use vstd::prelude::*;
use vstd::string::*;

verus! {

/// Why an entry is not canonical.
#[derive(Debug, Clone, Copy, PartialEq, Eq, Structural)]
pub enum Reason {
    HostBits,
    Ipv4AfterIpv6,
    NotAscending,
}

/// What a list held: its entries, and the intervals and set elements they became.
#[derive(Debug, Clone, Copy, PartialEq, Eq, Structural)]
pub struct StreamStats {
    pub cidrs: u64,
    pub ipv4_intervals: u64,
    pub ipv6_intervals: u64,
    pub ipv4_boundaries: u64,
    pub ipv6_boundaries: u64,
}

impl Default for StreamStats {
    fn default() -> (stats: Self)
        ensures
            stats.counts(0, Seq::empty()),
    {
        StreamStats {
            cidrs: 0,
            ipv4_intervals: 0,
            ipv6_intervals: 0,
            ipv4_boundaries: 0,
            ipv6_boundaries: 0,
        }
    }
}

impl StreamStats {
    /// The numbers are those of a list with this many entries and these intervals.
    pub open spec fn counts(self, cidrs: nat, spans: Seq<Span>) -> bool {
        &&& self.cidrs == cidrs
        &&& self.ipv4_intervals == crate::layout::count(spans, false)
        &&& self.ipv6_intervals == crate::layout::count(spans, true)
        &&& self.ipv4_boundaries == crate::layout::elements(spans, false)
        &&& self.ipv6_boundaries == crate::layout::elements(spans, true)
    }
}

/// An interval that the next entry may still extend.
#[derive(Clone, Copy)]
#[allow(inconsistent_fields)]
enum Pending {
    V4 { first: u32, last: u32 },
    V6 { first: u128, last: u128 },
}

impl Pending {
    spec fn span(self) -> Span {
        match self {
            Pending::V4 { first, last } => Span { v6: false, first: first as int, end: last + 1 },
            Pending::V6 { first, last } => Span { v6: true, first: first as int, end: last + 1 },
        }
    }

    spec fn wf(self) -> bool {
        self.span().first < self.span().end
    }

    fn interval(self) -> (interval: AddressInterval)
        requires
            self.wf(),
        ensures
            interval.span() == self.span(),
            interval.wf(),
    {
        proof {
            crate::address::lemma_space();
        }
        match self {
            Pending::V4 { first, last } => AddressInterval::V4 {
                first,
                after_last: last.checked_add(1),
            },
            Pending::V6 { first, last } => AddressInterval::V6 {
                first,
                after_last: last.checked_add(1),
            },
        }
    }

    fn is_v6(self) -> (r: bool)
        ensures
            r == self.span().v6,
    {
        match self {
            Pending::V4 { .. } => false,
            Pending::V6 { .. } => true,
        }
    }
}

/// The addresses of an entry, or nothing where it has host bits set.
fn entry_bounds(net: AddressPrefix) -> (r: Option<Pending>)
    requires
        net.wf(),
    ensures
        r is Some <==> net.block().aligned(),
        r matches Some(bounds) ==> bounds.wf() && bounds.span() == crate::layout::net_span(net),
{
    proof {
        crate::address::lemma_space();
        lemma_pow2_pos(net.block().bits);
    }
    match net {
        AddressPrefix::V4 { address, prefix_len } => {
            let host_bits: u32 = 32 - prefix_len as u32;
            proof {
                crate::dyadic::lemma_pow2_monotonic(host_bits as nat, 32);
                if net.block().aligned() {
                    crate::dyadic::lemma_aligned_end(net.block(), 32);
                }
            }
            let size: u128 = power_u128(host_bits);
            if address as u128 % size != 0 {
                return None;
            }
            Some(Pending::V4 { first: address, last: (address as u128 + size - 1) as u32 })
        },
        AddressPrefix::V6 { address, prefix_len } => {
            let host_bits: u32 = 128 - prefix_len as u32;
            proof {
                if net.block().aligned() {
                    crate::dyadic::lemma_aligned_end(net.block(), 128);
                }
            }
            if host_bits == 128 {
                proof {
                    vstd::arithmetic::div_mod::lemma_small_mod(address as nat, pow2(128));
                }
                if address != 0 {
                    return None;
                }
                return Some(Pending::V6 { first: 0, last: u128::MAX });
            }
            let size: u128 = power_u128(host_bits);
            if address % size != 0 {
                return None;
            }
            Some(Pending::V6 { first: address, last: address + (size - 1) })
        },
    }
}

/// Gives an interval that no entry can extend any more its place in the chunks.
fn flush_pending(
    pending: Pending,
    chunk: &mut Vec<AddressInterval>,
    chunk_boundaries: &mut usize,
    limit: usize,
    stats: &mut StreamStats,
    emitted: &mut Vec<Vec<AddressInterval>>,
    Ghost(cidrs): Ghost<nat>,
    Ghost(spans): Ghost<Seq<Span>>,
)
    requires
        limit > 0,
        pending.wf(),
        intervals_wf(old(chunk)@),
        chunks_wf(old(emitted)@),
        *old(chunk_boundaries) == crate::layout::total(crate::layout::interval_spans(old(chunk)@)),
        old(chunk)@.len() > 0 ==> *old(chunk_boundaries) < limit,
        forall|i: int|
            0 <= i < old(chunk)@.len() ==> (#[trigger] old(chunk)@[i]).span().v6
                == pending.span().v6,
        old(stats).counts(cidrs, spans),
        2 * spans.len() + 2 <= u64::MAX,
    ensures
        stream_chunks_state(final(emitted)@, final(chunk)@) == stream_chunks_state(
            old(emitted)@,
            old(chunk)@,
        ).placed(pending.span(), limit as nat),
        *final(chunk_boundaries) == crate::layout::total(
            crate::layout::interval_spans(final(chunk)@),
        ),
        final(chunk)@.len() > 0 ==> *final(chunk_boundaries) < limit,
        forall|i: int|
            0 <= i < final(chunk)@.len() ==> (#[trigger] final(chunk)@[i]).span().v6
                == pending.span().v6,
        final(stats).counts(cidrs, spans.push(pending.span())),
        intervals_wf(final(chunk)@),
        chunks_wf(final(emitted)@),
{
    let interval = pending.interval();
    let elements: usize = interval.boundary_elements();
    let ghost span = pending.span();
    let ghost start = stream_chunks_state(emitted@, chunk@);
    proof {
        if chunk@.len() > 0 {
            assert(crate::layout::interval_spans(chunk@).last() == chunk@[chunk@.len()
                - 1].span());
        }
        crate::layout::lemma_counts_bounded(spans, false);
        crate::layout::lemma_counts_bounded(spans, true);
        crate::layout::lemma_counts_push(spans, span, false);
        crate::layout::lemma_counts_push(spans, span, true);
    }
    if chunk.len() > 0 && elements > limit - *chunk_boundaries {
        emit(chunk, emitted);
        *chunk_boundaries = 0;
        assert(stream_chunks_state(emitted@, chunk@) == start.closed());
    }
    let ghost ready = stream_chunks_state(emitted@, chunk@);
    assert(ready == if start.refuses(span, limit as nat) {
        start.closed()
    } else {
        start
    });
    chunk.push(interval);
    *chunk_boundaries = *chunk_boundaries + elements;
    proof {
        assert(crate::layout::interval_spans(chunk@) =~= ready.open.push(span));
        crate::layout::lemma_total_push(ready.open, span);
    }
    let ghost grown = stream_chunks_state(emitted@, chunk@);
    match interval {
        AddressInterval::V4 { .. } => {
            stats.ipv4_intervals = stats.ipv4_intervals + 1;
            stats.ipv4_boundaries = stats.ipv4_boundaries + elements as u64;
        },
        AddressInterval::V6 { .. } => {
            stats.ipv6_intervals = stats.ipv6_intervals + 1;
            stats.ipv6_boundaries = stats.ipv6_boundaries + elements as u64;
        },
    }
    if *chunk_boundaries >= limit {
        emit(chunk, emitted);
        *chunk_boundaries = 0;
        assert(stream_chunks_state(emitted@, chunk@) == grown.closed());
    }
}

/// Every interval holds an address.
pub open spec fn intervals_wf(intervals: Seq<AddressInterval>) -> bool {
    forall|i: int| 0 <= i < intervals.len() ==> (#[trigger] intervals[i]).wf()
}

/// Every interval of every chunk holds an address.
pub open spec fn chunks_wf(chunks: Seq<Vec<AddressInterval>>) -> bool {
    forall|k: int| 0 <= k < chunks.len() ==> intervals_wf((#[trigger] chunks[k])@)
}

/// The chunks handed out and the one that still grows, over mathematical spans.
spec fn stream_chunks_state(emitted: Seq<Vec<AddressInterval>>, chunk: Seq<AddressInterval>) -> Chunks {
    Chunks {
        done: crate::layout::chunk_spans(emitted),
        open: crate::layout::interval_spans(chunk),
    }
}

/// Hands a chunk out and starts a new one.
fn emit(chunk: &mut Vec<AddressInterval>, emitted: &mut Vec<Vec<AddressInterval>>)
    requires
        old(chunk)@.len() > 0,
    ensures
        intervals_wf(old(chunk)@) && chunks_wf(old(emitted)@) ==> chunks_wf(final(emitted)@),
        stream_chunks_state(final(emitted)@, final(chunk)@) == stream_chunks_state(
            old(emitted)@,
            old(chunk)@,
        ).closed(),
        final(chunk)@.len() == 0,
{
    let mut full: Vec<AddressInterval> = Vec::new();
    core::mem::swap(&mut full, chunk);
    let ghost before = emitted@;
    emitted.push(full);
    proof {
        assert(crate::layout::chunk_spans(emitted@) =~= crate::layout::chunk_spans(before).push(
            crate::layout::interval_spans(full@),
        ));
        assert(crate::layout::interval_spans(chunk@) =~= Seq::empty());
    }
}

/// The state of reading a list: what the lines so far amount to.
pub struct ChunkStream {
    limit: usize,
    lines: usize,
    pending: Option<Pending>,
    chunk: Vec<AddressInterval>,
    chunk_boundaries: usize,
    stats: StreamStats,
    nets: Ghost<Seq<AddressPrefix>>,
}

impl ChunkStream {
    /// The largest number of set elements for a chunk of several intervals.
    pub closed spec fn limit(self) -> nat {
        self.limit as nat
    }

    /// The number of lines read.
    pub closed spec fn lines(self) -> nat {
        self.lines as nat
    }

    /// The entries accepted so far.
    pub closed spec fn nets(self) -> Seq<AddressPrefix> {
        self.nets@
    }

    /// The chunks handed out so far.
    pub open spec fn done(self) -> Seq<Seq<Span>> {
        crate::layout::settled(crate::layout::spans(self.nets()), self.limit()).done
    }

    /// The state describes a canonical list: the last interval is pending, the others have their
    /// place.
    pub closed spec fn wf(self) -> bool {
        let spans = crate::layout::spans(self.nets@);
        let chunks = crate::layout::settled(spans, self.limit as nat);
        &&& self.limit > 0
        &&& intervals_wf(self.chunk@)
        &&& crate::layout::canonical(self.nets@)
        &&& self.nets@.len() <= self.lines
        &&& self.pending is Some <==> self.nets@.len() > 0
        &&& self.pending matches Some(pending) ==> {
            &&& pending.wf()
            &&& pending.span() == spans.last()
            &&& forall|i: int|
                0 <= i < self.chunk@.len() ==> (#[trigger] self.chunk@[i]).span().v6
                    == pending.span().v6
        }
        &&& crate::layout::interval_spans(self.chunk@) == chunks.open
        &&& self.chunk_boundaries == crate::layout::total(chunks.open)
        &&& self.chunk@.len() > 0 ==> self.chunk_boundaries < self.limit
        &&& self.stats.counts(
            self.nets@.len(),
            if spans.len() == 0 {
                spans
            } else {
                spans.drop_last()
            },
        )
    }

    /// The entries accepted so far form a canonical list.
    pub proof fn law_accepted_canonical(self)
        requires
            self.wf(),
        ensures
            crate::layout::canonical(self.nets()),
    {
    }

    /// Starts reading a list.
    pub fn new(max_boundary_elements: usize) -> (stream: Self)
        requires
            max_boundary_elements > 0,
        ensures
            stream.wf(),
            stream.limit() == max_boundary_elements,
            stream.lines() == 0,
            stream.nets() == Seq::<AddressPrefix>::empty(),
    {
        let stream = ChunkStream {
            limit: max_boundary_elements,
            lines: 0,
            pending: None,
            chunk: Vec::new(),
            chunk_boundaries: 0,
            stats: StreamStats::default(),
            nets: Ghost(Seq::empty()),
        };
        proof {
            assert(crate::layout::interval_spans(stream.chunk@) =~= Seq::empty());
        }
        stream
    }

    /// Takes the next entry of the list, and hands out the chunks that it completes.
    ///
    /// An entry that cannot follow the others leaves the state as it was.
    pub fn push_net(&mut self, net: AddressPrefix) -> (r: Result<Vec<Vec<AddressInterval>>, Reason>)
        requires
            old(self).wf(),
            net.wf(),
            old(self).nets().len() < old(self).lines() < usize::MAX / 2,
        ensures
            final(self).wf(),
            final(self).limit() == old(self).limit(),
            final(self).lines() == old(self).lines(),
            match r {
                Ok(emitted) => {
                    &&& crate::layout::rejection(old(self).nets(), net) is None
                    &&& final(self).nets() == old(self).nets().push(net)
                    &&& chunks_wf(emitted@)
                    &&& final(self).done() == old(self).done() + crate::layout::chunk_spans(
                        emitted@,
                    )
                },
                Err(reason) => {
                    &&& crate::layout::rejection(old(self).nets(), net) == Some(reason)
                    &&& final(self).nets() == old(self).nets()
                },
            },
    {
        let ghost nets = self.nets@;
        let ghost spans = crate::layout::spans(nets);
        let ghost limit = self.limit as nat;
        let ghost span = crate::layout::net_span(net);
        let bounds = match entry_bounds(net) {
            None => {
                return Err(Reason::HostBits);
            },
            Some(bounds) => bounds,
        };
        let mut emitted: Vec<Vec<AddressInterval>> = Vec::new();
        proof {
            crate::layout::lemma_spans_push(nets, net);
            if nets.len() > 0 {
                crate::layout::lemma_last_span(nets);
            }
            assert(crate::layout::chunk_spans(emitted@) =~= Seq::empty());
        }
        match self.pending {
            None => {
                self.pending = Some(bounds);
                proof {
                    crate::layout::law_accepts_exactly_canonical(nets, net);
                    assert(spans.push(span).drop_last() =~= spans);
                }
            },
            Some(pending) => {
                let joined = match join(pending, bounds) {
                    Err(reason) => {
                        return Err(reason);
                    },
                    Ok(joined) => joined,
                };
                proof {
                    crate::layout::law_accepts_exactly_canonical(nets, net);
                }
                match joined {
                    Some(longer) => {
                        self.pending = Some(longer);
                        proof {
                            let now = spans.drop_last().push(longer.span());
                            assert(crate::layout::joined(spans, net) == now);
                            assert(now.drop_last() =~= spans.drop_last());
                        }
                    },
                    None => {
                        let ghost before = stream_chunks_state(emitted@, self.chunk@);
                        let ghost earlier = crate::layout::settled(spans, limit).done;
                        proof {
                            assert(spans.drop_last().push(spans.last()) =~= spans);
                            assert(spans.push(span).drop_last() =~= spans);
                            assert(before.after(earlier) == crate::layout::settled(spans, limit))
                                by {
                                assert(earlier + before.done =~= earlier);
                            }
                            crate::layout::lemma_placed_after(
                                before,
                                earlier,
                                spans.last(),
                                limit,
                            );
                            crate::layout::lemma_settle_last(spans, limit);
                        }
                        flush_pending(
                            pending,
                            &mut self.chunk,
                            &mut self.chunk_boundaries,
                            self.limit,
                            &mut self.stats,
                            &mut emitted,
                            Ghost(nets.len()),
                            Ghost(spans.drop_last()),
                        );
                        let ghost placed = stream_chunks_state(emitted@, self.chunk@);
                        assert(placed.after(earlier) == crate::layout::place_all(spans, limit));
                        if pending.is_v6() != bounds.is_v6() && self.chunk.len() > 0 {
                            emit(&mut self.chunk, &mut emitted);
                            self.chunk_boundaries = 0;
                        }
                        proof {
                            let now = stream_chunks_state(emitted@, self.chunk@);
                            if placed.open.len() > 0 {
                                let k = placed.open.len() - 1;
                                assert(placed.open.last().v6 == pending.span().v6);
                            }
                            assert(now == placed.before_family(span.v6));
                            assert(now.after(earlier).done =~= placed.after(
                                earlier,
                            ).before_family(span.v6).done);
                        }
                        self.pending = Some(bounds);
                    },
                }
            },
        }
        self.stats.cidrs = self.stats.cidrs + 1;
        self.nets = Ghost(self.nets@.push(net));
        Ok(emitted)
    }
}

/// Whether an entry extends an interval, starts a new one, or may not follow.
fn join(pending: Pending, next: Pending) -> (r: Result<Option<Pending>, Reason>)
    requires
        pending.wf(),
        next.wf(),
    ensures
        match r {
            Err(Reason::Ipv4AfterIpv6) => pending.span().v6 && !next.span().v6,
            Err(Reason::NotAscending) => pending.span().v6 == next.span().v6 && next.span().first
                < pending.span().end,
            Err(Reason::HostBits) => false,
            Ok(joined) => {
                &&& pending.span().v6 ==> next.span().v6
                &&& pending.span().v6 == next.span().v6 ==> pending.span().end <= next.span().first
                &&& joined is Some <==> pending.span().v6 == next.span().v6 && pending.span().end
                    == next.span().first
                &&& joined matches Some(longer) ==> longer.wf() && longer.span() == (Span {
                    v6: next.span().v6,
                    first: pending.span().first,
                    end: next.span().end,
                })
            },
        },
{
    match pending {
        Pending::V4 { first: old_first, last: old_last } => match next {
            Pending::V4 { first, last } => {
                if first <= old_last {
                    Err(Reason::NotAscending)
                } else if old_last + 1 == first {
                    Ok(Some(Pending::V4 { first: old_first, last }))
                } else {
                    Ok(None)
                }
            },
            Pending::V6 { .. } => Ok(None),
        },
        Pending::V6 { first: old_first, last: old_last } => match next {
            Pending::V4 { .. } => Err(Reason::Ipv4AfterIpv6),
            Pending::V6 { first, last } => {
                if first <= old_last {
                    Err(Reason::NotAscending)
                } else if old_last + 1 == first {
                    Ok(Some(Pending::V6 { first: old_first, last }))
                } else {
                    Ok(None)
                }
            },
        },
    }
}

/// What `str::parse::<ipnet::IpNet>` reads in a text: the address and the prefix length of a CIDR
/// entry, or nothing where the text is none.
pub uninterp spec fn parsed_net(text: Seq<char>) -> Option<AddressPrefix>;

/// The error type of the `ipnet` parsers; it only says that a text is no network.
#[verifier::external_type_specification]
#[verifier::external_body]
pub struct ExAddrParseError(ipnet::AddrParseError);

/// `<ipnet::IpNet as FromStr>::from_str` reads an IPv4 or IPv6 address, a slash and a prefix
/// length that is at most the number of address bits. Host bits are kept.
#[verifier::external_body]
fn parse_net(text: &str) -> (r: Result<AddressPrefix, ipnet::AddrParseError>)
    ensures
        match r {
            Ok(net) => parsed_net(text@) == Some(net) && net.wf(),
            Err(_) => parsed_net(text@) is None,
        },
{
    Ok(match text.parse::<ipnet::IpNet>()? {
        ipnet::IpNet::V4(net) => AddressPrefix::V4 {
            address: u32::from(net.addr()),
            prefix_len: net.prefix_len(),
        },
        ipnet::IpNet::V6(net) => AddressPrefix::V6 {
            address: u128::from(net.addr()),
            prefix_len: net.prefix_len(),
        },
    })
}

/// `<ipnet::AddrParseError as Display>` always writes this text.
#[verifier::external_body]
fn parse_error_text(error: &ipnet::AddrParseError) -> (r: String)
    ensures
        r@ == "invalid IP address syntax"@,
{
    error.to_string()
}

/// Why a list is refused. Lines are counted from one.
#[derive(Debug)]
#[allow(inconsistent_fields)]
pub enum ParseError {
    Io { line: usize, source: String },
    Invalid { line: usize, text: String, source: ipnet::AddrParseError },
    NonCanonical { line: usize, text: String, reason: Reason },
}

/// Why a list is refused, over mathematical values.
pub enum Fault {
    Io { line: nat, source: Seq<char> },
    Invalid { line: nat, text: Seq<char> },
    NonCanonical { line: nat, text: Seq<char>, reason: Reason },
}

impl Reason {
    pub open spec fn text(self) -> Seq<char> {
        match self {
            Reason::HostBits => "CIDR has host bits set"@,
            Reason::Ipv4AfterIpv6 => "IPv4 CIDR appears after IPv6"@,
            Reason::NotAscending => "CIDRs are duplicated, overlapping, or out of order"@,
        }
    }

    pub fn as_str(self) -> (r: &'static str)
        ensures
            r@ == self.text(),
    {
        match self {
            Reason::HostBits => "CIDR has host bits set",
            Reason::Ipv4AfterIpv6 => "IPv4 CIDR appears after IPv6",
            Reason::NotAscending => "CIDRs are duplicated, overlapping, or out of order",
        }
    }
}

impl Fault {
    /// The message that tells a user what is wrong and where.
    pub open spec fn message(self) -> Seq<char> {
        match self {
            Fault::Io { line, source } => "I/O while reading blocklist at line "@
                + crate::text::decimal_digits(line) + ": "@ + source,
            Fault::Invalid { line, text } => "invalid CIDR at line "@
                + crate::text::decimal_digits(line) + ": "@ + crate::text::quoted_text(text)
                + ": "@ + "invalid IP address syntax"@,
            Fault::NonCanonical { line, text, reason } => "non-canonical blocklist at line "@
                + crate::text::decimal_digits(line) + ": "@ + crate::text::quoted_text(text)
                + ": "@ + reason.text(),
        }
    }
}

impl ParseError {
    pub open spec fn fault(self) -> Fault {
        match self {
            ParseError::Io { line, source } => Fault::Io { line: line as nat, source: source@ },
            ParseError::Invalid { line, text, .. } => Fault::Invalid {
                line: line as nat,
                text: text@,
            },
            ParseError::NonCanonical { line, text, reason } => Fault::NonCanonical {
                line: line as nat,
                text: text@,
                reason,
            },
        }
    }

    /// The message that tells a user what is wrong and where.
    pub fn message(&self) -> (r: String)
        ensures
            r@ == self.fault().message(),
    {
        match self {
            ParseError::Io { line, source } => String::from_str(
                "I/O while reading blocklist at line ",
            ).concat(decimal(*line as u64).as_str()).concat(": ").concat(source.as_str()),
            ParseError::Invalid { line, text, source } => String::from_str(
                "invalid CIDR at line ",
            ).concat(decimal(*line as u64).as_str()).concat(": ").concat(
                quoted(text.as_str()).as_str(),
            ).concat(": ").concat(parse_error_text(source).as_str()),
            ParseError::NonCanonical { line, text, reason } => String::from_str(
                "non-canonical blocklist at line ",
            ).concat(decimal(*line as u64).as_str()).concat(": ").concat(
                quoted(text.as_str()).as_str(),
            ).concat(": ").concat(reason.as_str()),
        }
    }
}

/// What a line amounts to.
pub enum Verdict {
    /// Blank, or a comment.
    Skipped,
    Accepted(AddressPrefix),
    Refused(Fault),
}

/// Judges a line after the entries accepted so far.
pub open spec fn judged(nets: Seq<AddressPrefix>, line: nat, text: Seq<char>) -> Verdict {
    let value = crate::text::trimmed(text);
    if value.len() == 0 || value[0] == '#' {
        Verdict::Skipped
    } else {
        match parsed_net(value) {
            None => Verdict::Refused(Fault::Invalid { line, text: value }),
            Some(net) => judged_net(nets, line, value, net),
        }
    }
}

/// Judges a CIDR entry after the entries accepted so far.
pub open spec fn judged_net(
    nets: Seq<AddressPrefix>,
    line: nat,
    value: Seq<char>,
    net: AddressPrefix,
) -> Verdict {
    match crate::layout::rejection(nets, net) {
        Some(reason) => Verdict::Refused(Fault::NonCanonical { line, text: value, reason }),
        None => Verdict::Accepted(net),
    }
}

/// What reading the lines in order amounts to: the entries up to the first refused line, and why
/// it was refused.
pub struct Reading {
    pub nets: Seq<AddressPrefix>,
    pub fault: Option<Fault>,
}

pub open spec fn reading(lines: Seq<Seq<char>>) -> Reading
    decreases lines.len(),
{
    if lines.len() == 0 {
        Reading { nets: Seq::empty(), fault: None }
    } else {
        let before = reading(lines.drop_last());
        if before.fault is Some {
            before
        } else {
            match judged(before.nets, lines.len(), lines.last()) {
                Verdict::Skipped => before,
                Verdict::Accepted(net) => Reading { nets: before.nets.push(net), fault: None },
                Verdict::Refused(fault) => Reading { nets: before.nets, fault: Some(fault) },
            }
        }
    }
}

pub open spec fn line_texts(lines: Seq<String>) -> Seq<Seq<char>> {
    lines.map_values(|line: String| line@)
}

impl ChunkStream {
    /// Reads the next line, and hands out the chunks that it completes.
    ///
    /// A refused line leaves the accepted entries as they were.
    pub fn push_line(&mut self, text: &str) -> (r: Result<Vec<Vec<AddressInterval>>, ParseError>)
        requires
            old(self).wf(),
            old(self).lines() + 1 < usize::MAX / 2,
        ensures
            final(self).wf(),
            final(self).limit() == old(self).limit(),
            final(self).lines() == old(self).lines() + 1,
            match judged(old(self).nets(), old(self).lines() + 1, text@) {
                Verdict::Skipped => r is Ok && final(self).nets() == old(self).nets(),
                Verdict::Accepted(net) => r is Ok && final(self).nets() == old(self).nets().push(
                    net,
                ),
                Verdict::Refused(fault) => {
                    &&& r matches Err(error) && error.fault() == fault
                    &&& final(self).nets() == old(self).nets()
                },
            },
            r matches Ok(emitted) ==> chunks_wf(emitted@) && final(self).done() == old(self).done()
                + crate::layout::chunk_spans(emitted@),
    {
        self.lines = self.lines + 1;
        let value = text.trim();
        if value.is_empty() || value.get_char(0) == '#' {
            let emitted: Vec<Vec<AddressInterval>> = Vec::new();
            proof {
                assert(crate::layout::chunk_spans(emitted@) =~= Seq::empty());
                assert(self.done() + Seq::empty() =~= self.done());
            }
            return Ok(emitted);
        }
        match parse_net(value) {
            Err(source) => Err(
                ParseError::Invalid { line: self.lines, text: value.to_owned(), source },
            ),
            Ok(net) => match self.push_net(net) {
                Err(reason) => Err(
                    ParseError::NonCanonical { line: self.lines, text: value.to_owned(), reason },
                ),
                Ok(emitted) => Ok(emitted),
            },
        }
    }

    /// Ends the list: hands out the remaining chunks, and says what the list held.
    pub fn finish(self) -> (r: (Vec<Vec<AddressInterval>>, StreamStats))
        requires
            self.wf(),
            self.lines() < usize::MAX / 2,
        ensures
            chunks_wf(r.0@),
            self.done() + crate::layout::chunk_spans(r.0@) == crate::layout::chunked(
                crate::layout::spans(self.nets()),
                self.limit(),
            ),
            r.1.counts(self.nets().len(), crate::layout::spans(self.nets())),
    {
        let ghost spans = crate::layout::spans(self.nets@);
        let ghost limit = self.limit as nat;
        let ghost nets = self.nets@;
        let mut this = self;
        let mut emitted: Vec<Vec<AddressInterval>> = Vec::new();
        let ghost before = stream_chunks_state(emitted@, this.chunk@);
        let ghost earlier = crate::layout::settled(spans, limit).done;
        proof {
            assert(crate::layout::chunk_spans(emitted@) =~= Seq::empty());
            assert(earlier + before.done =~= earlier);
            assert(before.after(earlier) == crate::layout::settled(spans, limit));
            if nets.len() > 0 {
                crate::layout::lemma_last_span(nets);
                crate::layout::lemma_placed_after(before, earlier, spans.last(), limit);
                crate::layout::lemma_settle_last(spans, limit);
                assert(spans.drop_last().push(spans.last()) =~= spans);
            }
        }
        match this.pending {
            None => {},
            Some(pending) => {
                flush_pending(
                    pending,
                    &mut this.chunk,
                    &mut this.chunk_boundaries,
                    this.limit,
                    &mut this.stats,
                    &mut emitted,
                    Ghost(nets.len()),
                    Ghost(spans.drop_last()),
                );
            },
        }
        let ghost placed = stream_chunks_state(emitted@, this.chunk@);
        assert(placed.after(earlier) == crate::layout::place_all(spans, limit));
        if this.chunk.len() > 0 {
            emit(&mut this.chunk, &mut emitted);
        }
        proof {
            assert(placed.closed().after(earlier).done =~= placed.after(earlier).closed().done);
        }
        (emitted, this.stats)
    }
}

/// Reads a list and groups its intervals into chunks of bounded size.
///
/// The first part of the result are the chunks handed out, the second what the list held, or why
/// it was refused. The chunks that were complete before a refused line are handed out all the
/// same.
pub fn stream_chunks(lines: &Vec<String>, max_boundary_elements: usize) -> (r: (
    Vec<Vec<AddressInterval>>,
    Result<StreamStats, ParseError>,
))
    requires
        max_boundary_elements > 0,
        lines@.len() + 1 < usize::MAX / 2,
    ensures
        chunks_wf(r.0@),
        crate::layout::canonical(reading(line_texts(lines@)).nets),
        match reading(line_texts(lines@)).fault {
            None => {
                &&& r.1 matches Ok(stats) && stats.counts(
                    reading(line_texts(lines@)).nets.len(),
                    crate::layout::spans(reading(line_texts(lines@)).nets),
                )
                &&& crate::layout::chunk_spans(r.0@) == crate::layout::chunked(
                    crate::layout::spans(reading(line_texts(lines@)).nets),
                    max_boundary_elements as nat,
                )
            },
            Some(fault) => {
                &&& r.1 matches Err(error) && error.fault() == fault
                &&& crate::layout::chunk_spans(r.0@) == crate::layout::settled(
                    crate::layout::spans(reading(line_texts(lines@)).nets),
                    max_boundary_elements as nat,
                ).done
            },
        },
{
    let mut stream = ChunkStream::new(max_boundary_elements);
    let mut chunks: Vec<Vec<AddressInterval>> = Vec::new();
    let ghost texts = line_texts(lines@);
    let mut i: usize = 0;
    proof {
        assert(texts.take(0) =~= Seq::empty());
        assert(crate::layout::chunk_spans(chunks@) =~= Seq::empty());
    }
    while i < lines.len()
        invariant
            i <= lines@.len(),
            lines@.len() + 1 < usize::MAX / 2,
            texts == line_texts(lines@),
            stream.wf(),
            stream.limit() == max_boundary_elements,
            stream.lines() == i,
            reading(texts.take(i as int)).fault is None,
            stream.nets() == reading(texts.take(i as int)).nets,
            crate::layout::chunk_spans(chunks@) == stream.done(),
            chunks_wf(chunks@),
        decreases lines@.len() - i,
    {
        proof {
            assert(texts.take(i + 1).drop_last() =~= texts.take(i as int));
            assert(texts.take(i + 1).last() == lines@[i as int]@);
        }
        match stream.push_line(lines[i].as_str()) {
            Err(error) => {
                proof {
                    lemma_reading_stops(texts, i + 1);
                    stream.law_accepted_canonical();
                }
                return (chunks, Err(error));
            },
            Ok(emitted) => {
                append_chunks(&mut chunks, emitted);
            },
        }
        i = i + 1;
    }
    proof {
        assert(texts.take(i as int) =~= texts);
    }
    proof {
        stream.law_accepted_canonical();
    }
    let (emitted, stats) = stream.finish();
    append_chunks(&mut chunks, emitted);
    (chunks, Ok(stats))
}

/// The line is an entry: this prefix, with nothing but white space around it.
pub open spec fn spells(text: Seq<char>, net: AddressPrefix) -> bool {
    let value = crate::text::trimmed(text);
    value.len() > 0 && value[0] != '#' && parsed_net(value) == Some(net)
}

proof fn lemma_prefixes_stream_back(
    interval: AddressInterval,
    prefixes: Seq<AddressPrefix>,
    lines: Seq<Seq<char>>,
    n: int,
)
    requires
        crate::address::of_family(prefixes, interval.span().v6),
        crate::dyadic::decomposes(
            crate::address::blocks(prefixes),
            interval.span().first,
            interval.span().end,
        ),
        lines.len() == prefixes.len(),
        forall|i: int| 0 <= i < lines.len() ==> spells(#[trigger] lines[i], prefixes[i]),
        0 <= n <= prefixes.len(),
    ensures
        reading(lines.take(n)).fault is None,
        reading(lines.take(n)).nets == prefixes.take(n),
        crate::layout::spans(prefixes.take(n)) == if n == 0 {
            Seq::<Span>::empty()
        } else {
            seq![
                Span {
                    v6: interval.span().v6,
                    first: interval.span().first,
                    end: prefixes[n - 1].block().end(),
                },
            ]
        },
    decreases n,
{
    let all = crate::address::blocks(prefixes);
    if n == 0 {
        assert(prefixes.take(0) =~= Seq::empty());
        assert(lines.take(0) =~= Seq::empty());
    } else {
        lemma_prefixes_stream_back(interval, prefixes, lines, n - 1);
        let net = prefixes[n - 1];
        let before = prefixes.take(n - 1);
        assert(lines.take(n).drop_last() =~= lines.take(n - 1));
        assert(lines.take(n).last() == lines[n - 1]);
        assert(prefixes.take(n).drop_last() =~= before);
        assert(prefixes.take(n) =~= before.push(net));
        assert(all[n - 1].aligned());
        assert(net.v6() == interval.span().v6);
        if n > 1 {
            assert(before.last() == prefixes[n - 2]);
            assert(prefixes[n - 2].v6() == interval.span().v6);
            assert(all[n - 2].end() == all[n - 1].start);
        }
        assert(crate::layout::rejection(before, net) is None);
        assert(crate::layout::spans(prefixes.take(n)) =~= seq![
            Span {
                v6: interval.span().v6,
                first: interval.span().first,
                end: net.block().end(),
            },
        ]);
    }
}

/// Streaming the prefixes of an interval, one per line in their order, gives that interval back:
/// every line is accepted, and the one chunk that is handed out holds the interval alone. Joining
/// adjacent entries undoes the decomposition into prefixes.
pub proof fn law_prefixes_stream_back(
    interval: AddressInterval,
    prefixes: Seq<AddressPrefix>,
    lines: Seq<Seq<char>>,
    limit: nat,
)
    requires
        interval.wf(),
        crate::address::of_family(prefixes, interval.span().v6),
        crate::dyadic::decomposes(
            crate::address::blocks(prefixes),
            interval.span().first,
            interval.span().end,
        ),
        lines.len() == prefixes.len(),
        forall|i: int| 0 <= i < lines.len() ==> spells(#[trigger] lines[i], prefixes[i]),
        limit > 0,
    ensures
        reading(lines).fault is None,
        reading(lines).nets == prefixes,
        crate::layout::spans(prefixes) == seq![interval.span()],
        crate::layout::chunked(crate::layout::spans(prefixes), limit) == seq![
            seq![interval.span()],
        ],
{
    let n = prefixes.len() as int;
    lemma_prefixes_stream_back(interval, prefixes, lines, n);
    assert(lines.take(n) =~= lines);
    assert(prefixes.take(n) =~= prefixes);
    let all = crate::address::blocks(prefixes);
    assert(n > 0);
    assert(all.last() == prefixes[n - 1].block());
    let one = seq![interval.span()];
    assert(crate::layout::spans(prefixes) =~= one);
    assert(one.drop_last() =~= Seq::empty());
    assert(crate::layout::place_all(one.drop_last(), limit) == Chunks::empty());
    assert(Seq::<Span>::empty().push(interval.span()) =~= one);
    assert(crate::layout::chunked(one, limit) =~= seq![one]);
}

/// After a refused line nothing more is read.
proof fn lemma_reading_stops(lines: Seq<Seq<char>>, n: int)
    requires
        0 <= n <= lines.len(),
        reading(lines.take(n)).fault is Some,
    ensures
        reading(lines) == reading(lines.take(n)),
    decreases lines.len() - n,
{
    if n < lines.len() {
        assert(lines.take(n + 1).drop_last() =~= lines.take(n));
        lemma_reading_stops(lines, n + 1);
    } else {
        assert(lines.take(n) =~= lines);
    }
}

fn append_chunks(chunks: &mut Vec<Vec<AddressInterval>>, more: Vec<Vec<AddressInterval>>)
    ensures
        chunks_wf(old(chunks)@) && chunks_wf(more@) ==> chunks_wf(final(chunks)@),
        crate::layout::chunk_spans(final(chunks)@) == crate::layout::chunk_spans(old(chunks)@)
            + crate::layout::chunk_spans(more@),
{
    let ghost added = more@;
    let mut more = more;
    let ghost before = chunks@;
    chunks.append(&mut more);
    proof {
        assert(crate::layout::chunk_spans(before + added) =~= crate::layout::chunk_spans(before)
            + crate::layout::chunk_spans(added));
    }
}

/// A list in memory: its intervals, by family.
#[derive(Debug, Clone, PartialEq, Eq)]
pub struct ParsedBlocklist {
    pub ipv4: Vec<AddressInterval>,
    pub ipv6: Vec<AddressInterval>,
}

impl ParsedBlocklist {
    /// The list holds the intervals that these entries describe.
    pub open spec fn describes(self, nets: Seq<AddressPrefix>) -> bool {
        let spans = crate::layout::spans(nets);
        &&& crate::layout::interval_spans(self.ipv4@) == crate::layout::family(spans, false)
        &&& crate::layout::interval_spans(self.ipv6@) == crate::layout::family(spans, true)
    }

    /// The list holds the intervals of these entries, which are canonical.
    pub open spec fn lists(self, nets: Seq<AddressPrefix>) -> bool {
        &&& self.describes(nets)
        &&& intervals_wf(self.ipv4@)
        &&& intervals_wf(self.ipv6@)
        &&& crate::layout::canonical(nets)
    }
}

impl Default for ParsedBlocklist {
    fn default() -> (list: Self)
        ensures
            list.lists(Seq::empty()),
            list.ipv4@.len() == 0,
            list.ipv6@.len() == 0,
    {
        let list = ParsedBlocklist { ipv4: Vec::new(), ipv6: Vec::new() };
        proof {
            assert(crate::layout::interval_spans(list.ipv4@) =~= Seq::empty());
            assert(crate::layout::interval_spans(list.ipv6@) =~= Seq::empty());
        }
        list
    }
}

/// The chunk size that reading a whole list uses internally.
const PARSE_CHUNK: usize = 2000;

/// Reads a whole list.
pub fn parse(lines: &Vec<String>) -> (r: Result<ParsedBlocklist, ParseError>)
    requires
        lines@.len() + 1 < usize::MAX / 2,
    ensures
        match reading(line_texts(lines@)).fault {
            None => r matches Ok(list) && list.lists(reading(line_texts(lines@)).nets),
            Some(fault) => r matches Err(error) && error.fault() == fault,
        },
{
    let (chunks, outcome) = stream_chunks(lines, PARSE_CHUNK);
    match outcome {
        Err(error) => Err(error),
        Ok(_) => {
            let mut list = ParsedBlocklist::default();
            let ghost all = crate::layout::chunk_spans(chunks@);
            let ghost spans = crate::layout::spans(reading(line_texts(lines@)).nets);
            proof {
                crate::layout::law_chunks_keep_intervals(spans, PARSE_CHUNK as nat);
                assert(all.take(0) =~= Seq::empty());
                assert(crate::layout::interval_spans(list.ipv4@) =~= Seq::empty());
                assert(crate::layout::interval_spans(list.ipv6@) =~= Seq::empty());
            }
            let mut k: usize = 0;
            while k < chunks.len()
                invariant
                    k <= chunks@.len(),
                    all == crate::layout::chunk_spans(chunks@),
                    chunks_wf(chunks@),
                    intervals_wf(list.ipv4@),
                    intervals_wf(list.ipv6@),
                    split_by_family(list, crate::layout::flat(all.take(k as int))),
                decreases chunks@.len() - k,
            {
                let ghost before = crate::layout::flat(all.take(k as int));
                let ghost part = all[k as int];
                proof {
                    assert(all.take(k + 1) =~= all.take(k as int).push(part));
                    crate::layout::lemma_flat_push(all.take(k as int), part);
                    assert(before + part.take(0) =~= before);
                }
                let mut i: usize = 0;
                while i < chunks[k].len()
                    invariant
                        k < chunks@.len(),
                        i <= chunks@[k as int]@.len(),
                        chunks_wf(chunks@),
                        part == crate::layout::interval_spans(chunks@[k as int]@),
                        intervals_wf(list.ipv4@),
                        intervals_wf(list.ipv6@),
                        split_by_family(list, before + part.take(i as int)),
                    decreases chunks@[k as int]@.len() - i,
                {
                    let interval = chunks[k][i];
                    let ghost old = list;
                    let ghost so_far = before + part.take(i as int);
                    match interval {
                        AddressInterval::V4 { .. } => list.ipv4.push(interval),
                        AddressInterval::V6 { .. } => list.ipv6.push(interval),
                    }
                    proof {
                        assert(part[i as int] == interval.span());
                        assert(before + part.take(i + 1) =~= so_far.push(interval.span()));
                        crate::layout::lemma_family_push(so_far, interval.span(), false);
                        crate::layout::lemma_family_push(so_far, interval.span(), true);
                        assert(crate::layout::interval_spans(old.ipv4@.push(interval))
                            =~= crate::layout::interval_spans(old.ipv4@).push(interval.span()));
                        assert(crate::layout::interval_spans(old.ipv6@.push(interval))
                            =~= crate::layout::interval_spans(old.ipv6@).push(interval.span()));
                    }
                    i = i + 1;
                }
                proof {
                    assert(part.take(i as int) =~= part);
                }
                k = k + 1;
            }
            proof {
                assert(all.take(k as int) =~= all);
            }
            Ok(list)
        },
    }
}

spec fn split_by_family(list: ParsedBlocklist, spans: Seq<Span>) -> bool {
    &&& crate::layout::interval_spans(list.ipv4@) == crate::layout::family(spans, false)
    &&& crate::layout::interval_spans(list.ipv6@) == crate::layout::family(spans, true)
}

/// The line says nothing: there is nothing in it but white space, or a hash sign comes first.
pub open spec fn says_nothing(text: Seq<char>) -> bool {
    crate::text::trimmed(text).len() == 0 || crate::text::trimmed(text).first() == '#'
}

/// A line that says nothing changes nothing, wherever it stands and whatever it holds.
pub proof fn law_silent_lines_change_nothing(lines: Seq<Seq<char>>, text: Seq<char>)
    requires
        says_nothing(text),
    ensures
        reading(lines.push(text)) == reading(lines),
{
    assert(lines.push(text).drop_last() =~= lines);
}

/// An entry is taken in exactly where the list stays canonical with it, whatever its length and
/// whatever white space surrounds it. Otherwise the list is refused, with the number of the line.
pub proof fn law_entries_are_taken_in_order(
    lines: Seq<Seq<char>>,
    text: Seq<char>,
    net: AddressPrefix,
)
    requires
        reading(lines).fault is None,
        crate::layout::canonical(reading(lines).nets),
        spells(text, net),
        net.wf(),
    ensures
        reading(lines.push(text)).fault is None <==> crate::layout::canonical(
            reading(lines).nets.push(net),
        ),
        reading(lines.push(text)).fault is None ==> reading(lines.push(text)).nets == reading(
            lines,
        ).nets.push(net),
        reading(lines.push(text)).fault is Some ==> {
            &&& reading(lines.push(text)).nets == reading(lines).nets
            &&& reading(lines.push(text)).fault matches Some(
                Fault::NonCanonical { line, text: value, .. },
            ) && line == lines.len() + 1 && value == crate::text::trimmed(text)
        },
{
    assert(lines.push(text).drop_last() =~= lines);
    crate::layout::law_accepts_exactly_canonical(reading(lines).nets, net);
}

/// The entries of a list are canonical, whether or not a line of it was refused.
pub proof fn law_read_entries_are_canonical(lines: Seq<Seq<char>>)
    requires
        forall|i: int|
            0 <= i < lines.len() ==> (parsed_net(
                crate::text::trimmed(#[trigger] lines[i]),
            ) matches Some(net) ==> net.wf()),
    ensures
        crate::layout::canonical(reading(lines).nets),
    decreases lines.len(),
{
    if lines.len() > 0 {
        let before = lines.drop_last();
        assert forall|i: int| 0 <= i < before.len() implies (parsed_net(
            crate::text::trimmed(#[trigger] before[i]),
        ) matches Some(net) ==> net.wf()) by {
            assert(before[i] == lines[i]);
        }
        law_read_entries_are_canonical(before);
        let text = lines[lines.len() - 1];
        match parsed_net(crate::text::trimmed(text)) {
            Some(net) => crate::layout::law_accepts_exactly_canonical(reading(before).nets, net),
            None => {},
        }
    }
}

/// A line that is neither silent nor an entry is refused, with its number and what it says; and
/// once a line was refused, no later line matters.
pub proof fn law_other_lines_are_refused(lines: Seq<Seq<char>>, text: Seq<char>)
    ensures
        reading(lines).fault is Some ==> reading(lines.push(text)) == reading(lines),
        reading(lines).fault is None && !says_nothing(text) && parsed_net(
            crate::text::trimmed(text),
        ) is None ==> reading(lines.push(text)).nets == reading(lines).nets && reading(
            lines.push(text),
        ).fault == Some(
            Fault::Invalid { line: lines.len() + 1, text: crate::text::trimmed(text) },
        ),
        reading(Seq::empty()).fault is None,
        reading(Seq::empty()).nets.len() == 0,
{
    assert(lines.push(text).drop_last() =~= lines);
}

/// The texts of the lines are those of all lines, in their order.
pub proof fn law_every_line_is_read(lines: Seq<String>, k: int)
    ensures
        line_texts(lines).len() == lines.len(),
        0 <= k < lines.len() ==> line_texts(lines)[k] == lines[k]@,
{
}

/// The entries of a list are those that its lines spell: every line with an entry counts, wherever it
/// stands, and nothing else does.
pub proof fn law_entries_are_what_lines_spell(lines: Seq<Seq<char>>, net: AddressPrefix)
    requires
        reading(lines).fault is None,
    ensures
        reading(lines).nets.contains(net) <==> exists|k: int|
            0 <= k < lines.len() && spells(#[trigger] lines[k], net),
    decreases lines.len(),
{
    let nets = reading(lines).nets;
    if lines.len() > 0 {
        let before = lines.drop_last();
        let old = reading(before).nets;
        let last = lines[lines.len() - 1];
        law_entries_are_what_lines_spell(before, net);
        if nets.contains(net) {
            let i = choose|i: int| 0 <= i < nets.len() && nets[i] == net;
            if i < old.len() {
                assert(old[i] == net);
                let k = choose|k: int| 0 <= k < before.len() && spells(#[trigger] before[k], net);
                assert(spells(lines[k], net));
            } else {
                assert(spells(last, net));
            }
        }
        if exists|k: int| 0 <= k < lines.len() && spells(#[trigger] lines[k], net) {
            let k = choose|k: int| 0 <= k < lines.len() && spells(#[trigger] lines[k], net);
            if k < before.len() {
                assert(spells(before[k], net));
                let i = choose|i: int| 0 <= i < old.len() && old[i] == net;
                assert(nets[i] == net);
            } else {
                assert(nets[old.len() as int] == net);
            }
        }
    } else {
        assert(!nets.contains(net));
    }
}

/// The address is not below the interval's first, and below the one behind its last, if there is one.
pub open spec fn interval_holds(interval: AddressInterval, v6: bool, address: int) -> bool {
    match interval {
        AddressInterval::V4 { first, after_last } => !v6 && first <= address && (
        after_last matches Some(end) ==> address < end),
        AddressInterval::V6 { first, after_last } => v6 && first <= address && (
        after_last matches Some(end) ==> address < end),
    }
}

proof fn lemma_spans_of_intervals(intervals: Seq<AddressInterval>, v6: bool, address: int)
    requires
        0 <= address < crate::address::space(v6),
    ensures
        crate::layout::spans_contain(crate::layout::interval_spans(intervals), v6, address)
            <==> exists|i: int|
            0 <= i < intervals.len() && interval_holds(#[trigger] intervals[i], v6, address),
{
    let spans = crate::layout::interval_spans(intervals);
    crate::address::lemma_space();
    assert forall|i: int| 0 <= i < intervals.len() implies spans[i].contains(v6, address)
        == interval_holds(#[trigger] intervals[i], v6, address) by {
    }
    if crate::layout::spans_contain(spans, v6, address) {
        let i = choose|i: int| 0 <= i < spans.len() && (#[trigger] spans[i]).contains(v6, address);
        assert(interval_holds(intervals[i], v6, address));
    }
    if exists|i: int|
        0 <= i < intervals.len() && interval_holds(#[trigger] intervals[i], v6, address) {
        let i = choose|i: int|
            0 <= i < intervals.len() && interval_holds(#[trigger] intervals[i], v6, address);
        assert(spans[i].contains(v6, address));
    }
}

impl ParsedBlocklist {
    /// An interval of the family holds the address.
    pub open spec fn holds(self, v6: bool, address: int) -> bool {
        if v6 {
            exists|i: int|
                0 <= i < self.ipv6@.len() && interval_holds(#[trigger] self.ipv6@[i], v6, address)
        } else {
            exists|i: int|
                0 <= i < self.ipv4@.len() && interval_holds(#[trigger] self.ipv4@[i], v6, address)
        }
    }
}

/// A list that was read holds an address exactly where one of its lines spells an entry that holds
/// it; and each family has its own intervals.
pub proof fn law_a_list_is_its_lines(
    lines: &Vec<String>,
    list: ParsedBlocklist,
    v6: bool,
    address: int,
)
    requires
        call_ensures(parse, (lines,), Ok(list)),
        0 <= address < crate::address::space(v6),
    ensures
        list.holds(v6, address) <==> exists|k: int, net: AddressPrefix|
            0 <= k < lines@.len() && #[trigger] spells(lines@[k]@, net)
                && crate::request::entry_holds(net, v6, address),
{
    let texts = line_texts(lines@);
    let nets = reading(texts).nets;
    let spans = crate::layout::spans(nets);
    let intervals = if v6 {
        list.ipv6@
    } else {
        list.ipv4@
    };
    lemma_spans_of_intervals(intervals, v6, address);
    crate::layout::law_family_covers(spans, v6, address);
    crate::layout::law_spans_cover_entries(nets, v6, address);
    crate::request::lemma_list_holds(nets, v6, address);
    if crate::request::list_holds(nets, v6, address) {
        let net = choose|net: AddressPrefix| #[trigger]
            nets.contains(net) && crate::request::entry_holds(net, v6, address);
        law_entries_are_what_lines_spell(texts, net);
        let k = choose|k: int| 0 <= k < texts.len() && spells(#[trigger] texts[k], net);
        assert(spells(lines@[k]@, net));
    }
    if exists|k: int, net: AddressPrefix|
        0 <= k < lines@.len() && #[trigger] spells(lines@[k]@, net) && crate::request::entry_holds(
            net,
            v6,
            address,
        ) {
        let (k, net) = choose|k: int, net: AddressPrefix|
            0 <= k < lines@.len() && #[trigger] spells(lines@[k]@, net)
                && crate::request::entry_holds(net, v6, address);
        assert(spells(texts[k], net));
        law_entries_are_what_lines_spell(texts, net);
    }
}

/// A list is refused exactly where reading its lines comes to a fault, and for that fault.
pub proof fn law_lists_are_refused_for_their_lines(
    lines: &Vec<String>,
    r: Result<ParsedBlocklist, ParseError>,
)
    requires
        call_ensures(parse, (lines,), r),
    ensures
        r is Ok <==> reading(line_texts(lines@)).fault is None,
        r matches Err(error) ==> reading(line_texts(lines@)).fault == Some(error.fault()),
{
}

/// The numbers that are given of a list are those of its entries and of its intervals, by family.
pub proof fn law_the_numbers_add_up(stats: StreamStats, cidrs: nat, spans: Seq<Span>)
    requires
        stats.counts(cidrs, spans),
    ensures
        stats.cidrs == cidrs,
        stats.ipv4_intervals == crate::layout::family(spans, false).len(),
        stats.ipv6_intervals == crate::layout::family(spans, true).len(),
        stats.ipv4_intervals + stats.ipv6_intervals == spans.len(),
        stats.ipv4_boundaries == crate::layout::total(crate::layout::family(spans, false)),
        stats.ipv6_boundaries == crate::layout::total(crate::layout::family(spans, true)),
{
    let any = Span { v6: false, first: 0, end: 0 };
    crate::layout::law_intervals_need_two_elements(spans, false, any);
    crate::layout::law_intervals_need_two_elements(spans, true, any);
    crate::layout::lemma_counts_sum(spans);
}

/// The reasons for which an entry is not canonical are told apart.
pub proof fn law_reasons_are_told_apart(a: Reason, b: Reason)
    requires
        a != b,
    ensures
        a.text() != b.text(),
{
    reveal_strlit("CIDR has host bits set");
    reveal_strlit("IPv4 CIDR appears after IPv6");
    reveal_strlit("CIDRs are duplicated, overlapping, or out of order");
    assert(Reason::HostBits.text().len() == 22);
    assert(Reason::Ipv4AfterIpv6.text().len() == 28);
    assert(Reason::NotAscending.text().len() == 50);
}

} // verus!
