//! What the XDP program makes of a packet.
use crate::control::Control;
use vstd::prelude::*;

verus! {

/// Let the packet through.
pub const XDP_PASS: u32 = 2;

/// Drop the packet.
pub const XDP_DROP: u32 = 1;

const ETHERNET: usize = 14;

const VLAN: usize = 4;

/// The type of a packet with an IPv4 header.
pub const IPV4: u16 = 0x0800;

/// The type of a packet with an IPv6 header.
pub const IPV6: u16 = 0x86dd;

/// The source address of a packet, where it is an IP packet with a whole header.
#[derive(Clone, Copy, Debug, PartialEq, Eq, Structural)]
#[allow(inconsistent_fields)]
pub enum Source {
    Absent,
    V4 { address: u32 },
    V6 { address: u128 },
}

/// The number that two bytes hold in network byte order.
pub open spec fn big16(bytes: Seq<u8>, at: int) -> u16 {
    (0x100 * bytes[at] + bytes[at + 1]) as u16
}

/// The number that some bytes hold in network byte order.
pub open spec fn big(bytes: Seq<u8>) -> int
    decreases bytes.len(),
{
    if bytes.len() == 0 {
        0
    } else {
        0x100 * big(bytes.drop_last()) + bytes.last()
    }
}

/// A VLAN tag follows.
pub open spec fn is_tag(ether_type: u16) -> bool {
    ether_type == 0x8100 || ether_type == 0x88a8
}

/// The type of a frame's content and where the content begins, behind at most this many more VLAN
/// tags; nothing where the frame ends inside a tag.
pub open spec fn untagged(packet: Seq<u8>, ether_type: u16, offset: int, tags: nat) -> Option<
    (u16, int),
>
    decreases tags,
{
    if tags == 0 || !is_tag(ether_type) {
        Some((ether_type, offset))
    } else if offset + 4 > packet.len() {
        None
    } else {
        untagged(packet, big16(packet, offset + 2), offset + 4, (tags - 1) as nat)
    }
}

/// The source address of an IPv4 packet that begins at an offset: its header is whole, has the
/// right version and the least length or more.
pub open spec fn source_v4(packet: Seq<u8>, offset: int) -> Source {
    if offset + 20 > packet.len() || packet[offset] / 16 != 4 || packet[offset] % 16 < 5 {
        Source::Absent
    } else {
        Source::V4 { address: big(packet.subrange(offset + 12, offset + 16)) as u32 }
    }
}

/// The source address of an IPv6 packet that begins at an offset: its header is whole and has the
/// right version.
pub open spec fn source_v6(packet: Seq<u8>, offset: int) -> Source {
    if offset + 40 > packet.len() || packet[offset] / 16 != 6 {
        Source::Absent
    } else {
        Source::V6 { address: big(packet.subrange(offset + 8, offset + 24)) as u128 }
    }
}

/// The source address of an Ethernet frame: an IPv4 or IPv6 packet behind at most two VLAN tags.
pub open spec fn source_of(packet: Seq<u8>) -> Source {
    if packet.len() < 14 {
        Source::Absent
    } else {
        match untagged(packet, big16(packet, 12), 14, 2) {
            None => Source::Absent,
            Some((ether_type, offset)) => if ether_type == IPV4 {
                source_v4(packet, offset)
            } else if ether_type == IPV6 {
                source_v6(packet, offset)
            } else {
                Source::Absent
            },
        }
    }
}

fn read_be_u16(packet: &[u8], at: usize) -> (r: u16)
    requires
        at + 2 <= packet@.len(),
    ensures
        r == big16(packet@, at as int),
{
    0x100 * (packet[at] as u16) + packet[at + 1] as u16
}

proof fn lemma_big_bound(bytes: Seq<u8>)
    ensures
        bytes.len() <= 4 ==> 0 <= big(bytes) <= u32::MAX,
        bytes.len() <= 16 ==> 0 <= big(bytes) <= u128::MAX,
{
    let n = bytes.len();
    if n <= 16 {
        lemma_big_upper(bytes);
        lemma_powers(n);
    }
}

/// The numbers of so many bytes.
spec fn byte_limit(n: nat) -> int
    decreases n,
{
    if n == 0 {
        1
    } else {
        0x100 * byte_limit((n - 1) as nat)
    }
}

proof fn lemma_big_upper(bytes: Seq<u8>)
    ensures
        0 <= big(bytes) < byte_limit(bytes.len()),
    decreases bytes.len(),
{
    if bytes.len() > 0 {
        lemma_big_upper(bytes.drop_last());
    }
}

proof fn lemma_powers(n: nat)
    requires
        n <= 16,
    ensures
        n <= 4 ==> byte_limit(n) <= 0x1_0000_0000,
        byte_limit(n) <= u128::MAX + 1,
{
    reveal_with_fuel(byte_limit, 18);
    assert(byte_limit(16) == u128::MAX + 1);
    lemma_limit_grows(n, 16);
    if n <= 4 {
        lemma_limit_grows(n, 4);
        assert(byte_limit(4) == 0x1_0000_0000);
    }
}

proof fn lemma_limit_grows(a: nat, b: nat)
    requires
        a <= b,
    ensures
        0 < byte_limit(a) <= byte_limit(b),
    decreases b,
{
    if a < b {
        lemma_limit_grows(a, (b - 1) as nat);
    } else if a > 0 {
        lemma_limit_grows((a - 1) as nat, (a - 1) as nat);
    }
}

fn read_address_v4(packet: &[u8], at: usize) -> (r: u32)
    requires
        at + 4 <= packet.len(),
    ensures
        r == big(packet@.subrange(at as int, at + 4)),
{
    let mut r: u32 = 0;
    let mut i: usize = 0;
    assert(packet@.subrange(at as int, at as int) =~= Seq::empty());
    while i < 4
        invariant
            i <= 4,
            at + 4 <= packet.len(),
            r == big(packet@.subrange(at as int, at + i)),
        decreases 4 - i,
    {
        let ghost next = packet@.subrange(at as int, at + i + 1);
        proof {
            assert(next.drop_last() =~= packet@.subrange(at as int, at + i));
            lemma_big_bound(next);
        }
        r = 0x100 * r + packet[at + i] as u32;
        i = i + 1;
    }
    r
}

fn read_address_v6(packet: &[u8], at: usize) -> (r: u128)
    requires
        at + 16 <= packet.len(),
    ensures
        r == big(packet@.subrange(at as int, at + 16)),
{
    let mut r: u128 = 0;
    let mut i: usize = 0;
    assert(packet@.subrange(at as int, at as int) =~= Seq::empty());
    while i < 16
        invariant
            i <= 16,
            at + 16 <= packet.len(),
            r == big(packet@.subrange(at as int, at + i)),
        decreases 16 - i,
    {
        let ghost next = packet@.subrange(at as int, at + i + 1);
        proof {
            assert(next.drop_last() =~= packet@.subrange(at as int, at + i));
            lemma_big_bound(next);
        }
        r = 0x100 * r + packet[at + i] as u128;
        i = i + 1;
    }
    r
}

/// The source address of an Ethernet frame. What is malformed or not IP has none.
#[verifier::loop_isolation(false)]
pub fn source(packet: &[u8]) -> (r: Source)
    ensures
        r == source_of(packet@),
        forall|addresses: Seq<u8>, tags: Seq<u8>, header: Seq<u8>, payload: Seq<u8>|
            packet@ == #[trigger] frame(addresses, tags, 0x08, 0x00, header + payload)
                && addresses.len() == 12 && are_tags(tags) && header.len() == 20 && 0x45
                <= header[0] <= 0x4f ==> r == (Source::V4 { address: number4(header, 12) as u32 }),
        forall|addresses: Seq<u8>, tags: Seq<u8>, header: Seq<u8>, payload: Seq<u8>|
            packet@ == #[trigger] frame(addresses, tags, 0x86, 0xdd, header + payload)
                && addresses.len() == 12 && are_tags(tags) && header.len() == 40 && 0x60
                <= header[0] <= 0x6f ==> r == (Source::V6 { address: number16(header, 8) as u128 }),
{
    proof {
        assert forall|addresses: Seq<u8>, tags: Seq<u8>, header: Seq<u8>, payload: Seq<u8>|
            packet@ == #[trigger] frame(addresses, tags, 0x08, 0x00, header + payload)
                && addresses.len() == 12 && are_tags(tags) && header.len() == 20 && 0x45
                <= header[0] <= 0x4f implies source_of(packet@) == (Source::V4 {
            address: number4(header, 12) as u32,
        }) by {
            law_ipv4_packets_have_their_source(addresses, tags, header, payload);
        }
        assert forall|addresses: Seq<u8>, tags: Seq<u8>, header: Seq<u8>, payload: Seq<u8>|
            packet@ == #[trigger] frame(addresses, tags, 0x86, 0xdd, header + payload)
                && addresses.len() == 12 && are_tags(tags) && header.len() == 40 && 0x60
                <= header[0] <= 0x6f implies source_of(packet@) == (Source::V6 {
            address: number16(header, 8) as u128,
        }) by {
            law_ipv6_packets_have_their_source(addresses, tags, header, payload);
        }
    }
    let len: usize = packet.len();
    if len < ETHERNET {
        return Source::Absent;
    }
    let mut offset: usize = ETHERNET;
    let mut ether_type: u16 = read_be_u16(packet, 12);
    let mut tags: u32 = 2;
    while tags > 0 && (ether_type == 0x8100 || ether_type == 0x88a8)
        invariant
            tags <= 2,
            len == packet@.len(),
            14 <= offset <= len,
            untagged(packet@, big16(packet@, 12), 14, 2) == untagged(
                packet@,
                ether_type,
                offset as int,
                tags as nat,
            ),
        decreases tags,
    {
        if len - offset < VLAN {
            return Source::Absent;
        }
        ether_type = read_be_u16(packet, offset + 2);
        offset = offset + VLAN;
        tags = tags - 1;
    }
    if ether_type == IPV4 {
        if len - offset < 20 {
            return Source::Absent;
        }
        let first: u8 = packet[offset];
        if first / 16 != 4 || first % 16 < 5 {
            return Source::Absent;
        }
        proof {
            lemma_big_bound(packet@.subrange(offset + 12, offset + 16));
        }
        Source::V4 { address: read_address_v4(packet, offset + 12) }
    } else if ether_type == IPV6 {
        if len - offset < 40 {
            return Source::Absent;
        }
        let first: u8 = packet[offset];
        if first / 16 != 6 {
            return Source::Absent;
        }
        proof {
            lemma_big_bound(packet@.subrange(offset + 8, offset + 24));
        }
        Source::V6 { address: read_address_v6(packet, offset + 8) }
    } else {
        Source::Absent
    }
}

/// Which table decides about a packet, and what is looked up in it.
#[derive(Clone, Copy, Debug, PartialEq, Eq, Structural)]
#[allow(inconsistent_fields)]
pub enum Lookup {
    /// No table: the packet passes.
    Pass,
    /// The first or the second IPv4 table.
    V4 { second: bool, address: u32 },
    /// The first or the second IPv6 table.
    V6 { second: bool, address: u128 },
}

/// The slot that is in force; the first where there is no control value.
pub open spec fn slot_of(control: Option<Control>) -> u32 {
    match control {
        Some(control) => control.active_slot,
        None => 0,
    }
}

pub open spec fn lookup_of(packet: Seq<u8>, control: Option<Control>) -> Lookup {
    let second = slot_of(control) != 0;
    match source_of(packet) {
        Source::Absent => Lookup::Pass,
        Source::V4 { address } => Lookup::V4 { second, address },
        Source::V6 { address } => Lookup::V6 { second, address },
    }
}

/// Which table decides about a packet.
pub fn lookup(packet: &[u8], control: Option<Control>) -> (r: Lookup)
    ensures
        r == lookup_of(packet@, control),
{
    let second: bool = match control {
        Some(control) => control.active_slot != 0,
        None => false,
    };
    match source(packet) {
        Source::Absent => Lookup::Pass,
        Source::V4 { address } => Lookup::V4 { second, address },
        Source::V6 { address } => Lookup::V6 { second, address },
    }
}

/// What happens to a packet once its table was asked.
pub fn action(listed: bool) -> (r: u32)
    ensures
        r == (if listed {
            XDP_DROP
        } else {
            XDP_PASS
        }),
        listed <==> r == 1,
        !listed <==> r == 2,
{
    if listed {
        XDP_DROP
    } else {
        XDP_PASS
    }
}

/// The four bytes of an IPv4 address, as a table key has them.
pub fn octets_v4(address: u32) -> (r: [u8; 4])
    ensures
        big(r@) == address,
        number4(r@, 0) == address,
{
    let a: u8 = (address / 0x100_0000) as u8;
    let b: u8 = (address / 0x1_0000 % 0x100) as u8;
    let c: u8 = (address / 0x100 % 0x100) as u8;
    let d: u8 = (address % 0x100) as u8;
    let r = [a, b, c, d];
    proof {
        assert(r@ =~= seq![a, b, c, d]);
        assert(r@.drop_last() =~= seq![a, b, c]);
        assert(seq![a, b, c].drop_last() =~= seq![a, b]);
        assert(seq![a, b].drop_last() =~= seq![a]);
        assert(seq![a].drop_last() =~= Seq::empty());
        reveal_with_fuel(big, 6);
        assert(r@.subrange(0, 4) =~= r@);
        lemma_big_numbers(r@, 0);
    }
    r
}

/// The sixteen bytes of an IPv6 address, as a table key has them.
pub fn octets_v6(address: u128) -> (r: [u8; 16])
    ensures
        big(r@) == address,
        number16(r@, 0) == address,
{
    let mut r: [u8; 16] = [0; 16];
    let mut rest: u128 = address;
    let mut i: usize = 16;
    proof {
        reveal_with_fuel(byte_limit, 18);
        assert(r@.subrange(16, 16) =~= Seq::empty());
        assert(rest * byte_limit(0) == rest) by (nonlinear_arith)
            requires
                byte_limit(0) == 1,
        ;
    }
    while i > 0
        invariant
            i <= 16,
            0 <= rest < byte_limit(i as nat),
            address == rest * byte_limit((16 - i) as nat) + big(r@.subrange(i as int, 16)),
        decreases i,
    {
        let ghost before = r@;
        let ghost k = (16 - i) as nat;
        let ghost tail = before.subrange(i as int, 16);
        let byte: u8 = (rest % 0x100) as u8;
        let ghost old_rest = rest;
        i = i - 1;
        r[i] = byte;
        rest = rest / 0x100;
        proof {
            let now = r@.subrange(i as int, 16);
            assert(now =~= seq![byte] + tail);
            lemma_big_front(byte, tail);
            let limit = byte_limit(k);
            assert(byte_limit(k + 1) == 0x100 * limit);
            assert(old_rest == 0x100 * rest + byte);
            assert(old_rest * limit == rest * (0x100 * limit) + byte * limit) by (nonlinear_arith)
                requires
                    old_rest == 0x100 * rest + byte,
            ;
        }
    }
    proof {
        assert(rest == 0);
        assert(rest * byte_limit(16) == 0) by (nonlinear_arith)
            requires
                rest == 0,
        ;
        assert(r@.subrange(0, 16) =~= r@);
        lemma_big_numbers(r@, 0);
    }
    r
}

proof fn lemma_big_front(byte: u8, tail: Seq<u8>)
    ensures
        big(seq![byte] + tail) == byte * byte_limit(tail.len()) + big(tail),
    decreases tail.len(),
{
    let all = seq![byte] + tail;
    if tail.len() == 0 {
        assert(all.drop_last() =~= Seq::empty());
        assert(all.last() == byte);
        reveal_with_fuel(big, 3);
    } else {
        assert(all.drop_last() =~= seq![byte] + tail.drop_last());
        assert(all.last() == tail.last());
        lemma_big_front(byte, tail.drop_last());
        let limit = byte_limit((tail.len() - 1) as nat);
        assert(0x100 * (byte * limit + big(tail.drop_last())) == byte * (0x100 * limit) + 0x100
            * big(tail.drop_last())) by (nonlinear_arith);
    }
}

/// The number that four bytes hold in network byte order.
pub open spec fn number4(bytes: Seq<u8>, at: int) -> int {
    0x100_0000 * bytes[at] + 0x1_0000 * bytes[at + 1] + 0x100 * bytes[at + 2] + bytes[at + 3]
}

/// The number that sixteen bytes hold in network byte order.
pub open spec fn number16(bytes: Seq<u8>, at: int) -> int {
    0x1_0000_0000_0000_0000_0000_0000 * number4(bytes, at) + 0x1_0000_0000_0000_0000 * number4(
        bytes,
        at + 4,
    ) + 0x1_0000_0000 * number4(bytes, at + 8) + number4(bytes, at + 12)
}

proof fn lemma_big_four(bytes: Seq<u8>, from: int, to: int)
    requires
        0 <= from,
        from + 4 <= to <= bytes.len(),
    ensures
        big(bytes.subrange(from, to)) == 0x1_0000_0000 * big(bytes.subrange(from, to - 4))
            + number4(bytes, to - 4),
{
    let all = bytes.subrange(from, to);
    assert(all.drop_last() =~= bytes.subrange(from, to - 1));
    assert(bytes.subrange(from, to - 1).drop_last() =~= bytes.subrange(from, to - 2));
    assert(bytes.subrange(from, to - 2).drop_last() =~= bytes.subrange(from, to - 3));
    assert(bytes.subrange(from, to - 3).drop_last() =~= bytes.subrange(from, to - 4));
    reveal_with_fuel(big, 5);
}

proof fn lemma_big_numbers(bytes: Seq<u8>, at: int)
    requires
        0 <= at,
    ensures
        at + 4 <= bytes.len() ==> big(bytes.subrange(at, at + 4)) == number4(bytes, at),
        at + 16 <= bytes.len() ==> big(bytes.subrange(at, at + 16)) == number16(bytes, at),
{
    if at + 4 <= bytes.len() {
        lemma_big_four(bytes, at, at + 4);
        assert(bytes.subrange(at, at) =~= Seq::empty());
    }
    if at + 16 <= bytes.len() {
        lemma_big_four(bytes, at, at + 8);
        lemma_big_four(bytes, at, at + 12);
        lemma_big_four(bytes, at, at + 16);
    }
}

/// The bytes are VLAN tags, at most two.
pub open spec fn are_tags(tags: Seq<u8>) -> bool {
    &&& tags.len() == 0 || tags.len() == 4 || tags.len() == 8
    &&& tags.len() >= 4 ==> tags[0] == 0x81 && tags[1] == 0 || tags[0] == 0x88 && tags[1] == 0xa8
    &&& tags.len() == 8 ==> tags[4] == 0x81 && tags[5] == 0 || tags[4] == 0x88 && tags[5] == 0xa8
}

/// A frame: two hardware addresses, tags, the type of its content, and the content.
pub open spec fn frame(
    addresses: Seq<u8>,
    tags: Seq<u8>,
    high: u8,
    low: u8,
    content: Seq<u8>,
) -> Seq<u8> {
    addresses + tags + seq![high, low] + content
}

proof fn lemma_frame(addresses: Seq<u8>, tags: Seq<u8>, high: u8, low: u8, content: Seq<u8>)
    requires
        addresses.len() == 12,
        are_tags(tags),
    ensures
        ({
            let packet = frame(addresses, tags, high, low, content);
            let offset = 14 + tags.len();
            &&& packet.len() == offset + content.len()
            &&& forall|i: int|
                0 <= i < content.len() ==> #[trigger] packet[offset + i] == content[i]
            &&& !is_tag((0x100 * high + low) as u16) ==> untagged(
                packet,
                big16(packet, 12),
                14,
                2,
            ) == Some(((0x100 * high + low) as u16, offset as int))
        }),
{
    let packet = frame(addresses, tags, high, low, content);
    assert(tags.len() >= 4 ==> packet[12] == tags[0] && packet[13] == tags[1]);
    assert(tags.len() == 8 ==> packet[16] == tags[4] && packet[17] == tags[5]);
    assert(packet[12 + tags.len() as int] == high);
    assert(packet[13 + tags.len() as int] == low);
    reveal_with_fuel(untagged, 4);
}

/// A frame of the IPv4 type, behind at most two VLAN tags, with a whole header has the source that
/// the header gives, whatever follows the header and whatever stands before it.
pub proof fn law_ipv4_packets_have_their_source(
    addresses: Seq<u8>,
    tags: Seq<u8>,
    header: Seq<u8>,
    payload: Seq<u8>,
)
    requires
        addresses.len() == 12,
        are_tags(tags),
        header.len() == 20,
        0x45 <= header[0] <= 0x4f,
    ensures
        source_of(frame(addresses, tags, 0x08, 0x00, header + payload)) == (Source::V4 {
            address: number4(header, 12) as u32,
        }),
        0 <= number4(header, 12) <= u32::MAX,
{
    let packet = frame(addresses, tags, 0x08, 0x00, header + payload);
    let offset = (14 + tags.len()) as int;
    lemma_frame(addresses, tags, 0x08, 0x00, header + payload);
    lemma_big_numbers(packet, offset + 12);
    assert(forall|i: int| 0 <= i < 20 ==> (header + payload)[i] == header[i]);
    assert(packet[offset + 0] == header[0]);
    assert(packet[offset + 12] == header[12]);
    assert(packet[offset + 13] == header[13]);
    assert(packet[offset + 14] == header[14]);
    assert(packet[offset + 15] == header[15]);
}

/// A frame of the IPv6 type, behind at most two VLAN tags, with a whole header has the source that
/// the header gives, whatever follows the header and whatever stands before it.
pub proof fn law_ipv6_packets_have_their_source(
    addresses: Seq<u8>,
    tags: Seq<u8>,
    header: Seq<u8>,
    payload: Seq<u8>,
)
    requires
        addresses.len() == 12,
        are_tags(tags),
        header.len() == 40,
        0x60 <= header[0] <= 0x6f,
    ensures
        source_of(frame(addresses, tags, 0x86, 0xdd, header + payload)) == (Source::V6 {
            address: number16(header, 8) as u128,
        }),
        0 <= number16(header, 8) <= u128::MAX,
{
    let packet = frame(addresses, tags, 0x86, 0xdd, header + payload);
    let offset = (14 + tags.len()) as int;
    lemma_frame(addresses, tags, 0x86, 0xdd, header + payload);
    lemma_big_numbers(packet, offset + 8);
    assert forall|i: int| 0 <= i < 40 implies packet[offset + i] == #[trigger] header[i] by {
        assert((header + payload)[i] == header[i]);
    }
    assert(packet[offset + 0] == header[0]);
    assert(number4(packet, offset + 8) == number4(header, 8)) by {
        assert(header[8] == packet[offset + 8] && header[9] == packet[offset + 9]);
        assert(header[10] == packet[offset + 10] && header[11] == packet[offset + 11]);
    }
    assert(number4(packet, offset + 12) == number4(header, 12)) by {
        assert(header[12] == packet[offset + 12] && header[13] == packet[offset + 13]);
        assert(header[14] == packet[offset + 14] && header[15] == packet[offset + 15]);
    }
    assert(number4(packet, offset + 16) == number4(header, 16)) by {
        assert(header[16] == packet[offset + 16] && header[17] == packet[offset + 17]);
        assert(header[18] == packet[offset + 18] && header[19] == packet[offset + 19]);
    }
    assert(number4(packet, offset + 20) == number4(header, 20)) by {
        assert(header[20] == packet[offset + 20] && header[21] == packet[offset + 21]);
        assert(header[22] == packet[offset + 22] && header[23] == packet[offset + 23]);
    }
}

/// The packet is a frame of this type behind tags, and its content has at least so many bytes and
/// begins with a byte in a range.
pub open spec fn is_framed(
    packet: Seq<u8>,
    tags: int,
    high: u8,
    low: u8,
    header: int,
    least: u8,
    most: u8,
) -> bool {
    &&& 0 <= tags <= 2
    &&& 14 + 4 * tags + header <= packet.len()
    &&& are_tags(packet.subrange(12, 12 + 4 * tags))
    &&& packet[12 + 4 * tags] == high
    &&& packet[13 + 4 * tags] == low
    &&& least <= packet[14 + 4 * tags] <= most
}

/// Only such frames have a source: what is cut short, of another type, of another version, with too
/// short a header length or behind more tags has none.
pub proof fn law_only_whole_ip_packets_have_a_source(packet: Seq<u8>)
    ensures
        source_of(packet) is V4 ==> exists|tags: int| #[trigger]
            is_framed(packet, tags, 0x08, 0x00, 20, 0x45, 0x4f),
        source_of(packet) is V6 ==> exists|tags: int| #[trigger]
            is_framed(packet, tags, 0x86, 0xdd, 40, 0x60, 0x6f),
{
    if packet.len() >= 14 {
        reveal_with_fuel(untagged, 4);
        let none = packet.subrange(12, 12);
        let one = packet.subrange(12, 16);
        let two = packet.subrange(12, 20);
        let first = big16(packet, 12);
        if !(source_of(packet) is Absent) {
            if !is_tag(first) {
                assert(are_tags(none));
                assert(is_framed(packet, 0, 0x08, 0x00, 20, 0x45, 0x4f) || is_framed(
                    packet,
                    0,
                    0x86,
                    0xdd,
                    40,
                    0x60,
                    0x6f,
                ));
            } else if !is_tag(big16(packet, 16)) {
                assert(one[0] == packet[12] && one[1] == packet[13]);
                assert(are_tags(one));
                assert(is_framed(packet, 1, 0x08, 0x00, 20, 0x45, 0x4f) || is_framed(
                    packet,
                    1,
                    0x86,
                    0xdd,
                    40,
                    0x60,
                    0x6f,
                ));
            } else {
                assert(two[0] == packet[12] && two[1] == packet[13]);
                assert(two[4] == packet[16] && two[5] == packet[17]);
                assert(are_tags(two));
                assert(is_framed(packet, 2, 0x08, 0x00, 20, 0x45, 0x4f) || is_framed(
                    packet,
                    2,
                    0x86,
                    0xdd,
                    40,
                    0x60,
                    0x6f,
                ));
            }
        }
    }
}

/// The address of a packet decides nothing but what is looked up, and the control value nothing but
/// where: in the second tables exactly where it selects another slot than the first. A packet
/// without a source is looked up nowhere.
pub proof fn law_the_selected_slot_is_asked(packet: Seq<u8>, control: Option<Control>)
    ensures
        ({
            let second = control is Some && control->0.active_slot != 0;
            match source_of(packet) {
                Source::Absent => lookup_of(packet, control) is Pass,
                Source::V4 { address } => lookup_of(packet, control) is V4 && lookup_of(
                    packet,
                    control,
                )->V4_second == second && lookup_of(packet, control)->V4_address == address,
                Source::V6 { address } => lookup_of(packet, control) is V6 && lookup_of(
                    packet,
                    control,
                )->V6_second == second && lookup_of(packet, control)->V6_address == address,
            }
        }),
{
}

/// What is read from an IPv4 frame is the source in its header, whatever tags stand before the
/// header and whatever follows it; and it is looked up in the table of the selected slot.
pub proof fn law_ipv4_frames_are_looked_up(
    packet: &[u8],
    addresses: Seq<u8>,
    tags: Seq<u8>,
    header: Seq<u8>,
    payload: Seq<u8>,
    control: Option<Control>,
    read: Source,
    asked: Lookup,
)
    requires
        packet@ == frame(addresses, tags, 0x08, 0x00, header + payload),
        addresses.len() == 12,
        are_tags(tags),
        header.len() == 20,
        0x45 <= header[0] <= 0x4f,
        call_ensures(source, (packet,), read),
        call_ensures(lookup, (packet, control), asked),
    ensures
        read is V4,
        read->V4_address == number4(header, 12),
        asked is V4,
        asked->V4_address == number4(header, 12),
        asked->V4_second <==> control is Some && control->0.active_slot != 0,
{
    law_ipv4_packets_have_their_source(addresses, tags, header, payload);
    law_the_selected_slot_is_asked(packet@, control);
}

/// What is read from an IPv6 frame is the source in its header, whatever tags stand before the
/// header and whatever follows it; and it is looked up in the table of the selected slot.
pub proof fn law_ipv6_frames_are_looked_up(
    packet: &[u8],
    addresses: Seq<u8>,
    tags: Seq<u8>,
    header: Seq<u8>,
    payload: Seq<u8>,
    control: Option<Control>,
    read: Source,
    asked: Lookup,
)
    requires
        packet@ == frame(addresses, tags, 0x86, 0xdd, header + payload),
        addresses.len() == 12,
        are_tags(tags),
        header.len() == 40,
        0x60 <= header[0] <= 0x6f,
        call_ensures(source, (packet,), read),
        call_ensures(lookup, (packet, control), asked),
    ensures
        read is V6,
        read->V6_address == number16(header, 8),
        asked is V6,
        asked->V6_address == number16(header, 8),
        asked->V6_second <==> control is Some && control->0.active_slot != 0,
{
    law_ipv6_packets_have_their_source(addresses, tags, header, payload);
    law_the_selected_slot_is_asked(packet@, control);
}

/// Frames that are no whole IP packets behind at most two tags have no source, and pass without
/// being looked up.
pub proof fn law_other_frames_pass(
    packet: &[u8],
    control: Option<Control>,
    read: Source,
    asked: Lookup,
)
    requires
        forall|tags: int| !#[trigger] is_framed(packet@, tags, 0x08, 0x00, 20, 0x45, 0x4f),
        forall|tags: int| !#[trigger] is_framed(packet@, tags, 0x86, 0xdd, 40, 0x60, 0x6f),
        call_ensures(source, (packet,), read),
        call_ensures(lookup, (packet, control), asked),
    ensures
        read is Absent,
        asked is Pass,
{
    law_only_whole_ip_packets_have_a_source(packet@);
    law_the_selected_slot_is_asked(packet@, control);
}

} // verus!
