//! Netlink messages as bytes: buffers, request headers and attributes.
use vstd::endian::*;
use vstd::prelude::*;
use vstd::slice::*;
use vstd::utf8::*;

verus! {

/// Bytes of a netlink message header.
pub const HEADER: usize = 16;

/// Bytes of the nfnetlink header that follows it.
pub const NFGENMSG: usize = 4;

/// Bytes of an attribute's own header.
pub const ATTRIBUTE_HEADER: usize = 4;

/// The attribute that holds a set's number of elements.
pub const SET_COUNT: u16 = 20;

/// The attribute that holds a transaction-local set ID in a message that lists elements.
pub const ELEMENT_LIST_SET_ID: u16 = 4;

/// The attribute that holds a transaction-local set ID in a message about a set.
pub const SET_ID: u16 = 10;

/// No flowtable has more devices than this.
pub const MAX_FLOWTABLE_DEVICES: usize = 4096;

/// The message type that dumps tables.
pub const GET_TABLE: u16 = 1;

/// The message type that dumps sets.
pub const GET_SET: u16 = 10;

/// The message type that dumps flowtables.
pub const GET_FLOWTABLE: u16 = 23;

/// What is wrong with a message.
#[derive(Debug, Clone, Copy, PartialEq, Eq, Structural)]
pub enum WireError {
    Oversized,
    NoDevices,
    NullDevices,
    DeviceName,
    UnterminatedDevices,
    UnexpectedAck,
}

impl WireError {
    pub open spec fn text(self) -> Seq<char> {
        match self {
            WireError::Oversized => "netlink message exceeds its aligned buffer"@,
            WireError::NoDevices => "flowtable response has no device array"@,
            WireError::NullDevices => "flowtable returned a null device array"@,
            WireError::DeviceName => "flowtable device is not UTF-8"@,
            WireError::UnterminatedDevices => "flowtable device array is not terminated"@,
            WireError::UnexpectedAck => "unexpected netlink ACK"@,
        }
    }

    pub fn as_str(self) -> (r: &'static str)
        ensures
            r@ == self.text(),
    {
        match self {
            WireError::Oversized => "netlink message exceeds its aligned buffer",
            WireError::NoDevices => "flowtable response has no device array",
            WireError::NullDevices => "flowtable returned a null device array",
            WireError::DeviceName => "flowtable device is not UTF-8",
            WireError::UnterminatedDevices => "flowtable device array is not terminated",
            WireError::UnexpectedAck => "unexpected netlink ACK",
        }
    }
}

/// The number that two bytes hold in the machine's byte order.
pub open spec fn native16(first: u8, second: u8) -> int {
    match endianness() {
        Endian::Little => first + 0x100 * second,
        Endian::Big => 0x100 * first + second,
    }
}

/// The number that the first four bytes hold in the machine's byte order.
pub open spec fn native32(bytes: Seq<u8>) -> int {
    match endianness() {
        Endian::Little => bytes[0] + 0x100 * bytes[1] + 0x1_0000 * bytes[2] + 0x100_0000 * bytes[3],
        Endian::Big => 0x100_0000 * bytes[0] + 0x1_0000 * bytes[1] + 0x100 * bytes[2] + bytes[3],
    }
}

/// The number that four bytes hold in network byte order.
pub open spec fn big32(bytes: Seq<u8>) -> int {
    0x100_0000 * bytes[0] + 0x1_0000 * bytes[1] + 0x100 * bytes[2] + bytes[3]
}

/// The two bytes of a number in the machine's byte order.
pub open spec fn native_bytes16(value: u16) -> Seq<u8> {
    let (low, high) = ((value % 0x100) as u8, (value / 0x100) as u8);
    match endianness() {
        Endian::Little => seq![low, high],
        Endian::Big => seq![high, low],
    }
}

/// The four bytes of a number in the machine's byte order.
pub open spec fn native_bytes32(value: u32) -> Seq<u8> {
    let a = (value % 0x100) as u8;
    let b = (value / 0x100 % 0x100) as u8;
    let c = (value / 0x1_0000 % 0x100) as u8;
    let d = (value / 0x100_0000) as u8;
    match endianness() {
        Endian::Little => seq![a, b, c, d],
        Endian::Big => seq![d, c, b, a],
    }
}

/// What is written in the machine's byte order reads back the same.
pub proof fn law_native_bytes_read_back(short: u16, long: u32)
    ensures
        native16(native_bytes16(short)[0], native_bytes16(short)[1]) == short,
        native32(native_bytes32(long)) == long,
{
}

/// `u16::from_ne_bytes`: the two bytes in memory order, as a number in the machine's byte order.
#[verifier::external_body]
fn from_native16(first: u8, second: u8) -> (r: u16)
    ensures
        r == native16(first, second),
{
    u16::from_ne_bytes([first, second])
}

/// Whether the machine stores the least significant byte first.
fn little_endian() -> (r: bool)
    ensures
        r == (endianness() is Little),
{
    from_native16(1, 0) == 1
}

/// The number at an offset, in the machine's byte order.
fn read16(bytes: &[u8], at: usize) -> (r: u16)
    requires
        at + 2 <= bytes@.len(),
    ensures
        r == native16(bytes@[at as int], bytes@[at + 1]),
{
    from_native16(bytes[at], bytes[at + 1])
}

/// The number in the first four bytes, in the machine's byte order.
fn read32(bytes: &[u8]) -> (r: u32)
    requires
        4 <= bytes@.len(),
    ensures
        r == native32(bytes@),
{
    let (a, b, c, d) = (bytes[0] as u32, bytes[1] as u32, bytes[2] as u32, bytes[3] as u32);
    if little_endian() {
        a + 0x100 * b + 0x1_0000 * c + 0x100_0000 * d
    } else {
        0x100_0000 * a + 0x1_0000 * b + 0x100 * c + d
    }
}

/// Writes a number at an offset, in the machine's byte order.
fn write16(bytes: &mut Vec<u8>, at: usize, value: u16)
    requires
        at + 2 <= old(bytes).len(),
    ensures
        final(bytes)@.len() == old(bytes)@.len(),
        final(bytes)@.subrange(at as int, at + 2) == native_bytes16(value),
        forall|i: int|
            0 <= i < old(bytes)@.len() && !(at <= i < at + 2) ==> final(bytes)@[i] == old(bytes)@[i],
{
    let low: u8 = (value % 0x100) as u8;
    let high: u8 = (value / 0x100) as u8;
    if little_endian() {
        bytes.set(at, low);
        bytes.set(at + 1, high);
    } else {
        bytes.set(at, high);
        bytes.set(at + 1, low);
    }
    assert(bytes@.subrange(at as int, at + 2) =~= native_bytes16(value));
}

/// Writes a number at an offset, in the machine's byte order.
fn write32(bytes: &mut Vec<u8>, at: usize, value: u32)
    requires
        at + 4 <= old(bytes).len(),
    ensures
        final(bytes)@.len() == old(bytes)@.len(),
        final(bytes)@.subrange(at as int, at + 4) == native_bytes32(value),
        forall|i: int|
            0 <= i < old(bytes)@.len() && !(at <= i < at + 4) ==> final(bytes)@[i] == old(bytes)@[i],
{
    let a: u8 = (value % 0x100) as u8;
    let b: u8 = (value / 0x100 % 0x100) as u8;
    let c: u8 = (value / 0x1_0000 % 0x100) as u8;
    let d: u8 = (value / 0x100_0000) as u8;
    if little_endian() {
        bytes.set(at, a);
        bytes.set(at + 1, b);
        bytes.set(at + 2, c);
        bytes.set(at + 3, d);
    } else {
        bytes.set(at, d);
        bytes.set(at + 1, c);
        bytes.set(at + 2, b);
        bytes.set(at + 3, a);
    }
    assert(bytes@.subrange(at as int, at + 4) =~= native_bytes32(value));
}

/// A length rounded up to a multiple of four.
pub open spec fn aligned(length: int) -> int {
    (length + 3) / 4 * 4
}

/// A capacity in bytes rounded up to whole eight-byte words; at least a message header.
pub open spec fn word_capacity(byte_capacity: int) -> int {
    if byte_capacity < HEADER {
        HEADER as int
    } else {
        (byte_capacity + 7) / 8 * 8
    }
}

/// `<[u8]>::as_ptr`: the address of the first byte. It rests on the allocator, so nothing is
/// claimed of it.
#[verifier::external_body]
fn address_of(bytes: &[u8]) -> (r: usize) {
    bytes.as_ptr() as usize
}

/// How many bytes behind an address the next multiple of eight lies.
pub fn bytes_to_word(address: usize) -> (r: usize)
    ensures
        r < 8,
        (address + r) % 8 == 0,
{
    (8 - address % 8) % 8
}

/// Zeroed storage for a netlink message, in whole eight-byte words.
///
/// The storage begins at an address that is a multiple of eight, whatever the allocator returns:
/// the bytes before it are left out. It is never reallocated.
pub struct AlignedNetlinkBuffer {
    bytes: Vec<u8>,
    start: usize,
}

impl View for AlignedNetlinkBuffer {
    type V = Seq<u8>;

    closed spec fn view(&self) -> Seq<u8> {
        self.bytes@.skip(self.start as int)
    }
}

impl AlignedNetlinkBuffer {
    pub closed spec fn wf(self) -> bool {
        self.start < 8 && self.start <= self.bytes@.len()
    }

    pub fn new(byte_capacity: usize) -> (buffer: Self)
        requires
            byte_capacity + 14 <= usize::MAX,
        ensures
            buffer.wf(),
            buffer@ == Seq::new(word_capacity(byte_capacity as int) as nat, |i: int| 0u8),
    {
        let wanted: usize = if byte_capacity < HEADER {
            HEADER
        } else {
            byte_capacity
        };
        let capacity: usize = (wanted + 7) / 8 * 8;
        let mut bytes: Vec<u8> = Vec::new();
        bytes.resize(capacity + 7, 0);
        let start: usize = bytes_to_word(address_of(bytes.as_slice()));
        bytes.truncate(start + capacity);
        assert(bytes@.skip(start as int) =~= Seq::new(
            word_capacity(byte_capacity as int) as nat,
            |i: int| 0u8,
        ));
        AlignedNetlinkBuffer { bytes, start }
    }

    pub fn capacity(&self) -> (r: usize)
        requires
            self.wf(),
        ensures
            r == self@.len(),
    {
        self.bytes.len() - self.start
    }

    pub fn as_bytes(&self) -> (r: &[u8])
        requires
            self.wf(),
        ensures
            r@ == self@,
    {
        let r = slice_subrange(self.bytes.as_slice(), self.start, self.bytes.len());
        assert(r@ =~= self@);
        r
    }

    pub fn as_bytes_mut(&mut self) -> (r: &mut [u8])
        requires
            old(self).wf(),
        ensures
            r@ == old(self)@,
            final(self).wf(),
            final(self)@ == final(r)@,
    {
        let start: usize = self.start;
        let (_, body) = self.bytes.as_mut_slice().split_at_mut(start);
        assert(body@ =~= old(self)@);
        body
    }

    /// The first bytes of the buffer.
    pub fn prefix(&self, len: usize) -> (r: Result<&[u8], WireError>)
        requires
            self.wf(),
        ensures
            match r {
                Ok(bytes) => len <= self@.len() && bytes@ == self@.take(len as int),
                Err(error) => len > self@.len() && error == WireError::Oversized,
            },
    {
        if len > self.bytes.len() - self.start {
            Err(WireError::Oversized)
        } else {
            let r = slice_subrange(self.bytes.as_slice(), self.start, self.start + len);
            assert(r@ =~= self@.take(len as int));
            Ok(r)
        }
    }
}

/// The header of a request that dumps every object of a kind, whatever its family: length, type,
/// flags, sequence number and port, then the nfnetlink header, which is all zero.
pub open spec fn dump_request(message_type: u16, seq: u32) -> Seq<u8> {
    native_bytes32(20) + native_bytes16((0xa00 + message_type) as u16) + native_bytes16(0x301)
        + native_bytes32(seq) + seq![0u8, 0, 0, 0] + seq![0u8, 0, 0, 0]
}

/// A request to the kernel.
pub struct NetlinkRequest {
    buffer: AlignedNetlinkBuffer,
    len: usize,
}

impl View for NetlinkRequest {
    type V = Seq<u8>;

    closed spec fn view(&self) -> Seq<u8> {
        self.buffer@.take(self.len as int)
    }
}

impl NetlinkRequest {
    pub closed spec fn wf(self) -> bool {
        self.buffer.wf() && self.len <= self.buffer@.len()
    }

    fn dump(message_type: u16, seq: u32) -> (r: Self)
        requires
            message_type < 0x100,
        ensures
            r.wf(),
            r@ == dump_request(message_type, seq),
    {
        let mut buffer = AlignedNetlinkBuffer::new(4096);
        let start: usize = buffer.start;
        let ghost zero = buffer@;
        assert(buffer.bytes@.len() == start + zero.len());
        write32(&mut buffer.bytes, start, 20);
        let ghost one = buffer.bytes@;
        write16(&mut buffer.bytes, start + 4, 0xa00 + message_type);
        let ghost two = buffer.bytes@;
        write16(&mut buffer.bytes, start + 6, 0x301);
        let ghost three = buffer.bytes@;
        write32(&mut buffer.bytes, start + 8, seq);
        let ghost four = buffer.bytes@;
        proof {
            let s = start as int;
            let length = native_bytes32(20);
            let kind = native_bytes16((0xa00 + message_type) as u16);
            let flags = native_bytes16(0x301);
            let number = native_bytes32(seq);
            assert(buffer@.take(20) =~= dump_request(message_type, seq)) by {
                assert forall|i: int| 0 <= i < 20 implies buffer@[i] == dump_request(
                    message_type,
                    seq,
                )[i] by {
                    assert(buffer@[i] == four[s + i]);
                    if i < 4 {
                        assert(four[s + i] == one[s + i]);
                        assert(one.subrange(s, s + 4)[i] == length[i]);
                    } else if i < 6 {
                        assert(four[s + i] == two[s + i]);
                        assert(two.subrange(s + 4, s + 6)[i - 4] == kind[i - 4]);
                    } else if i < 8 {
                        assert(four[s + i] == three[s + i]);
                        assert(three.subrange(s + 6, s + 8)[i - 6] == flags[i - 6]);
                    } else if i < 12 {
                        assert(four.subrange(s + 8, s + 12)[i - 8] == number[i - 8]);
                    } else {
                        assert(zero[i] == 0);
                    }
                }
            }
        }
        NetlinkRequest { buffer, len: 20 }
    }

    pub fn table_dump(seq: u32) -> (r: Self)
        ensures
            r.wf(),
            r@ == dump_request(GET_TABLE, seq),
    {
        Self::dump(GET_TABLE, seq)
    }

    pub fn set_dump(seq: u32) -> (r: Self)
        ensures
            r.wf(),
            r@ == dump_request(GET_SET, seq),
    {
        Self::dump(GET_SET, seq)
    }

    pub fn flowtable_dump(seq: u32) -> (r: Self)
        ensures
            r.wf(),
            r@ == dump_request(GET_FLOWTABLE, seq),
    {
        Self::dump(GET_FLOWTABLE, seq)
    }

    pub fn as_bytes(&self) -> (r: &[u8])
        requires
            self.wf(),
        ensures
            r@ == self@,
    {
        let start: usize = self.buffer.start;
        assert(start + self.len <= self.buffer.bytes.len());
        let r = slice_subrange(self.buffer.bytes.as_slice(), start, start + self.len);
        assert(r@ =~= self@);
        r
    }
}

/// An attribute of a message: its type without flags, and its contents.
pub struct Attribute {
    pub kind: int,
    pub payload: Seq<u8>,
}

/// The length that the first attribute claims, its own header counted.
pub open spec fn claimed(rest: Seq<u8>) -> int {
    native16(rest[0], rest[1])
}

/// The type of the first attribute, without flags.
pub open spec fn attribute_kind(rest: Seq<u8>) -> int {
    native16(rest[2], rest[3]) % 0x4000
}

/// The bytes begin with a whole attribute; its padding need not be there.
pub open spec fn starts_attribute(rest: Seq<u8>) -> bool {
    rest.len() >= ATTRIBUTE_HEADER && ATTRIBUTE_HEADER <= claimed(rest) <= rest.len()
}

/// The bytes begin with a whole attribute and its padding.
pub open spec fn starts_padded(rest: Seq<u8>) -> bool {
    starts_attribute(rest) && aligned(claimed(rest)) <= rest.len()
}

/// The attributes in the bytes that follow a message's headers, up to the first malformed one.
pub open spec fn attributes(rest: Seq<u8>) -> Seq<Attribute>
    decreases rest.len(),
{
    if starts_padded(rest) {
        seq![
            Attribute {
                kind: attribute_kind(rest),
                payload: rest.subrange(ATTRIBUTE_HEADER as int, claimed(rest)),
            },
        ] + attributes(rest.skip(aligned(claimed(rest))))
    } else {
        Seq::empty()
    }
}

/// The bytes without the first attribute of a type, where one is reached.
pub open spec fn without(rest: Seq<u8>, target: u16) -> Option<Seq<u8>>
    decreases rest.len(),
{
    if !starts_padded(rest) {
        None
    } else {
        let size = aligned(claimed(rest));
        if attribute_kind(rest) == target {
            Some(rest.skip(size))
        } else {
            match without(rest.skip(size), target) {
                Some(tail) => Some(rest.take(size) + tail),
                None => None,
            }
        }
    }
}

/// The place of the first attribute of a type.
pub open spec fn first_of(list: Seq<Attribute>, target: u16) -> int
    decreases list.len(),
{
    if list.len() == 0 {
        0
    } else if list.first().kind == target {
        0
    } else {
        1 + first_of(list.drop_first(), target)
    }
}

/// Removing an attribute leaves every other attribute as it was and in its place; nothing is
/// removed exactly where no attribute of the type is reached.
pub proof fn law_removal_keeps_the_others(rest: Seq<u8>, target: u16)
    ensures
        match without(rest, target) {
            Some(shorter) => {
                let at = first_of(attributes(rest), target);
                &&& 0 <= at < attributes(rest).len()
                &&& attributes(rest)[at].kind == target
                &&& attributes(shorter) == attributes(rest).remove(at)
                &&& shorter.len() < rest.len()
            },
            None => forall|i: int|
                0 <= i < attributes(rest).len() ==> (#[trigger] attributes(rest)[i]).kind != target,
        },
    decreases rest.len(),
{
    if starts_padded(rest) {
        let size = aligned(claimed(rest));
        let tail = rest.skip(size);
        let all = attributes(rest);
        assert(all.drop_first() =~= attributes(tail));
        if attribute_kind(rest) == target {
            assert(all.remove(0) =~= attributes(tail));
        } else {
            law_removal_keeps_the_others(tail, target);
            match without(tail, target) {
                Some(shorter) => {
                    let joined = rest.take(size) + shorter;
                    assert(joined.skip(size) =~= shorter);
                    assert(joined[0] == rest[0] && joined[1] == rest[1] && joined[2] == rest[2]
                        && joined[3] == rest[3]);
                    assert(joined.subrange(ATTRIBUTE_HEADER as int, claimed(rest))
                        =~= rest.subrange(ATTRIBUTE_HEADER as int, claimed(rest)));
                    let at = first_of(attributes(tail), target);
                    assert(attributes(joined) =~= all.remove(at + 1)) by {
                        assert(attributes(joined) == seq![all[0]] + attributes(shorter));
                        assert(attributes(shorter) == attributes(tail).remove(at));
                    }
                    assert(all[at + 1] == attributes(tail)[at]);
                },
                None => {
                    assert forall|i: int| 0 <= i < all.len() implies (#[trigger] all[i]).kind
                        != target by {
                        if i > 0 {
                            assert(all[i] == attributes(tail)[i - 1]);
                        }
                    }
                },
            }
        }
    }
}

/// The length that a message's header claims, where the bytes hold that much.
pub open spec fn message_length(message: Seq<u8>) -> Option<int> {
    if message.len() >= HEADER && native32(message) <= message.len() {
        Some(native32(message))
    } else {
        None
    }
}

/// The message with its first attribute of a type removed: the attributes behind it move up, the
/// header's length shrinks by as much, and the bytes behind the new end stay as they were.
pub open spec fn removed(message: Seq<u8>, target: u16) -> Seq<u8> {
    match message_length(message) {
        Some(len) if len >= HEADER + NFGENMSG => {
            let body = message.subrange(HEADER + NFGENMSG, len);
            match without(body, target) {
                Some(shorter) => {
                    let total = HEADER + NFGENMSG + shorter.len();
                    native_bytes32(total as u32) + message.subrange(4, HEADER + NFGENMSG) + shorter
                        + message.skip(total as int)
                },
                None => message,
            }
        },
        _ => message,
    }
}

/// A message from which an attribute was removed is a whole message again: its header gives the
/// shorter length, the rest of its headers are as they were, and the attributes left follow them.
#[verifier::rlimit(30)]
pub proof fn law_removal_keeps_framing(message: Seq<u8>, target: u16)
    requires
        message_length(message) matches Some(len) && len >= HEADER + NFGENMSG,
    ensures
        ({
            let body = message.subrange(HEADER + NFGENMSG, message_length(message)->0);
            let after = removed(message, target);
            match without(body, target) {
                Some(shorter) => {
                    let total = HEADER + NFGENMSG + shorter.len();
                    &&& message_length(after) == Some(total as int)
                    &&& after.subrange(HEADER + NFGENMSG, total as int) == shorter
                    &&& after.subrange(4, HEADER + NFGENMSG) == message.subrange(
                        4,
                        HEADER + NFGENMSG,
                    )
                    &&& after.len() == message.len()
                },
                None => after == message,
            }
        }),
{
    let body = message.subrange(HEADER + NFGENMSG, message_length(message)->0);
    let after = removed(message, target);
    law_removal_keeps_the_others(body, target);
    match without(body, target) {
        Some(shorter) => {
            let total = HEADER + NFGENMSG + shorter.len();
            law_native_bytes_read_back(0, total as u32);
            let length = native_bytes32(total as u32);
            assert(after[0] == length[0] && after[1] == length[1] && after[2] == length[2]
                && after[3] == length[3]);
            assert(native32(after) == native32(length));
            assert(after.subrange(HEADER + NFGENMSG, total as int) =~= shorter);
            assert(after.subrange(4, HEADER + NFGENMSG) =~= message.subrange(
                4,
                HEADER + NFGENMSG,
            ));
        },
        None => {},
    }
}

proof fn lemma_mask(value: u16)
    ensures
        value & 0x3fff == value % 0x4000,
{
    assert(value & 0x3fff == value % 0x4000) by (bit_vector);
}

/// The size of the attribute at an offset with its padding, and its type.
fn attribute_at(message: &[u8], offset: usize, len: usize) -> (r: Option<(usize, u16)>)
    requires
        offset + ATTRIBUTE_HEADER <= len <= message@.len(),
    ensures
        ({
            let rest = message@.subrange(offset as int, len as int);
            match r {
                Some((size, kind)) => starts_padded(rest) && size == aligned(claimed(rest))
                    && kind == attribute_kind(rest),
                None => !starts_padded(rest),
            }
        }),
{
    let length: usize = read16(message, offset) as usize;
    if length < ATTRIBUTE_HEADER || length > len - offset {
        return None;
    }
    let kind: u16 = read16(message, offset + 2) & 0x3fff;
    proof {
        lemma_mask(native16(message@[offset + 2], message@[offset + 3]) as u16);
    }
    let size: usize = (length + 3) / 4 * 4;
    if size > len - offset {
        return None;
    }
    Some((size, kind))
}

/// Moves the bytes up to an end over a gap of the given size.
fn move_up(bytes: &mut Vec<u8>, at: usize, size: usize, end: usize)
    requires
        at + size <= end <= old(bytes).len(),
    ensures
        final(bytes)@.len() == old(bytes)@.len(),
        forall|j: int|
            0 <= j < old(bytes)@.len() ==> final(bytes)@[j] == (if at <= j < end - size {
                old(bytes)@[j + size]
            } else {
                old(bytes)@[j]
            }),
{
    let ghost before = bytes@;
    let mut i: usize = at;
    while i < end - size
        invariant
            at <= i <= end - size,
            at + size <= end <= before.len(),
            bytes@.len() == before.len(),
            forall|j: int|
                0 <= j < before.len() ==> bytes@[j] == (if at <= j < i {
                    before[j + size]
                } else {
                    before[j]
                }),
        decreases end - size - i,
    {
        let byte: u8 = bytes[i + size];
        bytes.set(i, byte);
        i = i + 1;
    }
}

/// What a message looks like once an attribute's bytes are skipped and the header's length is
/// lowered.
proof fn lemma_removed(before: Seq<u8>, after: Seq<u8>, target: u16, offset: int, size: int)
    requires
        message_length(before) matches Some(len) && HEADER + NFGENMSG <= offset && 0 <= size
            && offset + size <= len,
        before.len() == after.len(),
        ({
            let len = message_length(before)->0;
            let start = HEADER + NFGENMSG;
            let body = before.subrange(start, len);
            &&& without(body, target) == Some(
                body.take(offset - start) + body.skip(offset - start).skip(size),
            )
            &&& after.subrange(0, 4) == native_bytes32((len - size) as u32)
            &&& forall|j: int|
                4 <= j < before.len() ==> after[j] == (if offset <= j < len - size {
                    before[j + size]
                } else {
                    before[j]
                })
        }),
    ensures
        after == removed(before, target),
{
    let len = message_length(before)->0;
    let start = HEADER + NFGENMSG;
    let body = before.subrange(start, len);
    let shorter = body.take(offset - start) + body.skip(offset - start).skip(size);
    let count = len - size;
    let expected = removed(before, target);
    assert(start + shorter.len() == count);
    assert(expected == native_bytes32(count as u32) + before.subrange(4, start) + shorter
        + before.skip(count));
    assert forall|j: int| 0 <= j < after.len() implies after[j] == expected[j] by {
        if j < 4 {
            assert(after.subrange(0, 4)[j] == native_bytes32(count as u32)[j]);
        } else if start <= j < count {
            assert(expected[j] == shorter[j - start]);
        }
    }
    assert(after =~= expected);
}

/// The body without its first attribute of a type, from an attribute on.
spec fn without_from(body: Seq<u8>, k: int, target: u16) -> Option<Seq<u8>> {
    match without(body.skip(k), target) {
        Some(tail) => Some(body.take(k) + tail),
        None => None,
    }
}

proof fn lemma_without_next(body: Seq<u8>, k: int, target: u16)
    requires
        0 <= k <= body.len(),
        starts_padded(body.skip(k)),
        attribute_kind(body.skip(k)) != target,
    ensures
        without_from(body, k, target) == without_from(
            body,
            k + aligned(claimed(body.skip(k))),
            target,
        ),
{
    let rest = body.skip(k);
    let size = aligned(claimed(rest));
    assert(rest.skip(size) =~= body.skip(k + size));
    match without(rest.skip(size), target) {
        Some(tail) => {
            assert(body.take(k) + (rest.take(size) + tail) =~= body.take(k + size) + tail);
        },
        None => {},
    }
}

/// The place and the padded size of the first attribute of a type.
fn find_attribute(message: &[u8], len: usize, target: u16) -> (r: Option<(usize, usize)>)
    requires
        HEADER + NFGENMSG <= len <= message@.len(),
    ensures
        ({
            let start = HEADER + NFGENMSG;
            let body = message@.subrange(start, len as int);
            match r {
                Some((offset, size)) => start <= offset && offset + size <= len && without(
                    body,
                    target,
                ) == Some(body.take(offset - start) + body.skip(offset - start).skip(size as int)),
                None => without(body, target) is None,
            }
        }),
{
    let start: usize = HEADER + NFGENMSG;
    let ghost body = message@.subrange(start as int, len as int);
    let mut offset: usize = start;
    proof {
        assert(body.skip(0) =~= body);
        match without(body, target) {
            Some(tail) => {
                assert(body.take(0) + tail =~= tail);
            },
            None => {},
        }
    }
    while ATTRIBUTE_HEADER <= len - offset
        invariant
            start == HEADER + NFGENMSG,
            start <= offset <= len <= message@.len(),
            body == message@.subrange(start as int, len as int),
            without(body, target) == without_from(body, offset - start, target),
        decreases len - offset,
    {
        let ghost rest = body.skip(offset - start);
        assert(message@.subrange(offset as int, len as int) =~= rest);
        match attribute_at(message, offset, len) {
            None => {
                return None;
            },
            Some((size, kind)) => {
                if kind == target {
                    return Some((offset, size));
                }
                proof {
                    lemma_without_next(body, offset - start, target);
                }
                offset = offset + size;
            },
        }
    }
    None
}

/// Removes the first top-level attribute of a type from a message.
pub fn remove_top_level_attribute(message: &mut Vec<u8>, target: u16)
    ensures
        final(message)@ == removed(old(message)@, target),
{
    if message.len() < HEADER {
        return;
    }
    let total: u32 = read32(message.as_slice());
    if total as usize > message.len() || (total as usize) < HEADER + NFGENMSG {
        return;
    }
    let len: usize = total as usize;
    let ghost before = message@;
    match find_attribute(message.as_slice(), len, target) {
        None => {},
        Some((offset, size)) => {
            move_up(message, offset, size, len);
            write32(message, 0, (len - size) as u32);
            proof {
                lemma_removed(before, message@, target, offset as int, size as int);
            }
        },
    }
}

/// The number of elements that the attributes of a set give.
pub open spec fn counted(rest: Seq<u8>) -> Option<u32>
    decreases rest.len(),
{
    if !starts_attribute(rest) {
        None
    } else if attribute_kind(rest) == SET_COUNT && claimed(rest) >= ATTRIBUTE_HEADER + 4 {
        Some(big32(rest.skip(ATTRIBUTE_HEADER as int)) as u32)
    } else if aligned(claimed(rest)) > rest.len() {
        None
    } else {
        counted(rest.skip(aligned(claimed(rest))))
    }
}

/// A set that the kernel reports.
#[derive(Debug, Clone, PartialEq, Eq)]
pub struct SetInfo {
    pub table: String,
    pub name: String,
    /// How many elements it has, where the kernel says so.
    pub elements: Option<u32>,
}

impl SetInfo {
    /// The number of elements that a message about a set gives.
    pub fn count(message: &[u8]) -> (r: Option<u32>)
        ensures
            r == (match message_length(message@) {
                Some(len) if len >= HEADER + NFGENMSG => counted(
                    message@.subrange(HEADER + NFGENMSG, len),
                ),
                _ => None,
            }),
    {
        if message.len() < HEADER {
            return None;
        }
        let total: u32 = read32(message);
        if total as usize > message.len() || (total as usize) < HEADER + NFGENMSG {
            return None;
        }
        let len: usize = total as usize;
        let start: usize = HEADER + NFGENMSG;
        let ghost body = message@.subrange(start as int, len as int);
        let mut offset: usize = start;
        assert(body.skip(0) =~= body);
        while ATTRIBUTE_HEADER <= len - offset
            invariant
                start == HEADER + NFGENMSG,
                start <= offset <= len <= message@.len(),
                message_length(message@) == Some(len as int),
                body == message@.subrange(start as int, len as int),
                counted(body) == counted(body.skip(offset - start)),
            decreases len - offset,
        {
            let ghost rest = body.skip(offset - start);
            assert(rest =~= message@.subrange(offset as int, len as int));
            let length: usize = read16(message, offset) as usize;
            let kind: u16 = read16(message, offset + 2) & 0x3fff;
            proof {
                lemma_mask(native16(message@[offset + 2], message@[offset + 3]) as u16);
            }
            if length < ATTRIBUTE_HEADER || length > len - offset {
                return None;
            }
            if kind == SET_COUNT && length >= ATTRIBUTE_HEADER + 4 {
                let (a, b, c, d) = (
                    message[offset + 4] as u32,
                    message[offset + 5] as u32,
                    message[offset + 6] as u32,
                    message[offset + 7] as u32,
                );
                return Some(0x100_0000 * a + 0x1_0000 * b + 0x100 * c + d);
            }
            let size: usize = (length + 3) / 4 * 4;
            if size > len - offset {
                return None;
            }
            assert(rest.skip(size as int) =~= body.skip(offset + size - start));
            offset = offset + size;
        }
        None
    }
}

/// The devices of a flowtable, as a kernel response gives them: not at all, as no array, or as an
/// array of names that an empty slot ends.
#[derive(Debug, Clone, PartialEq, Eq)]
pub enum DeviceArray {
    Unset,
    Null,
    Slots(Vec<Option<Vec<u8>>>),
}

/// A flowtable that the kernel reports.
#[derive(Debug, Clone, PartialEq, Eq)]
pub struct Flowtable {
    pub devices: DeviceArray,
}

/// `String::from_utf8`: the text that the bytes encode, exactly where they are valid UTF-8.
#[verifier::external_body]
fn utf8_text(bytes: Vec<u8>) -> (r: Option<String>)
    ensures
        match r {
            Some(text) => valid_utf8(bytes@) && text@ == decode_utf8(bytes@),
            None => !valid_utf8(bytes@),
        },
{
    String::from_utf8(bytes).ok()
}

/// What the slots from an index on come to: the texts up to the empty slot that ends the array,
/// or what is wrong with it.
pub open spec fn device_texts(slots: Seq<Option<Vec<u8>>>, index: int) -> Result<
    Seq<Seq<char>>,
    WireError,
>
    decreases MAX_FLOWTABLE_DEVICES - index,
{
    if index >= MAX_FLOWTABLE_DEVICES || index >= slots.len() || index < 0 {
        Err(WireError::UnterminatedDevices)
    } else {
        match slots[index] {
            None => Ok(Seq::empty()),
            Some(name) => if !valid_utf8(name@) {
                Err(WireError::DeviceName)
            } else {
                match device_texts(slots, index + 1) {
                    Ok(rest) => Ok(seq![decode_utf8(name@)] + rest),
                    Err(error) => Err(error),
                }
            },
        }
    }
}

/// The texts of a list of names.
pub open spec fn texts(names: Seq<String>) -> Seq<Seq<char>> {
    names.map_values(|name: String| name@)
}

impl Flowtable {
    /// The device names, or what is wrong with the response.
    pub open spec fn names(self) -> Result<Seq<Seq<char>>, WireError> {
        match self.devices {
            DeviceArray::Unset => Err(WireError::NoDevices),
            DeviceArray::Null => Err(WireError::NullDevices),
            DeviceArray::Slots(slots) => device_texts(slots@, 0),
        }
    }

    /// The names of the flowtable's devices.
    pub fn device_names(&self) -> (r: Result<Vec<String>, WireError>)
        ensures
            match r {
                Ok(names) => self.names() == Ok::<Seq<Seq<char>>, WireError>(texts(names@)),
                Err(error) => self.names() == Err::<Seq<Seq<char>>, WireError>(error),
            },
    {
        let slots = match &self.devices {
            DeviceArray::Unset => {
                return Err(WireError::NoDevices);
            },
            DeviceArray::Null => {
                return Err(WireError::NullDevices);
            },
            DeviceArray::Slots(slots) => slots,
        };
        let mut names: Vec<String> = Vec::new();
        let mut index: usize = 0;
        proof {
            match device_texts(slots@, 0) {
                Ok(rest) => {
                    assert(texts(names@) + rest =~= rest);
                },
                Err(_) => {},
            }
        }
        while index < MAX_FLOWTABLE_DEVICES && index < slots.len()
            invariant
                index <= MAX_FLOWTABLE_DEVICES,
                index <= slots@.len(),
                self.devices == DeviceArray::Slots(*slots),
                match device_texts(slots@, index as int) {
                    Ok(rest) => device_texts(slots@, 0) == Ok::<Seq<Seq<char>>, WireError>(
                        texts(names@) + rest,
                    ),
                    Err(error) => device_texts(slots@, 0) == Err::<Seq<Seq<char>>, WireError>(
                        error,
                    ),
                },
            decreases MAX_FLOWTABLE_DEVICES - index,
        {
            match &slots[index] {
                None => {
                    assert(texts(names@) + Seq::empty() =~= texts(names@));
                    return Ok(names);
                },
                Some(name) => {
                    let ghost before = names@;
                    match utf8_text(copy_bytes(name)) {
                        None => {
                            return Err(WireError::DeviceName);
                        },
                        Some(text) => {
                            names.push(text);
                            proof {
                                match device_texts(slots@, index + 1) {
                                    Ok(rest) => {
                                        assert(texts(before) + (seq![decode_utf8(name@)] + rest)
                                            =~= texts(names@) + rest);
                                    },
                                    Err(_) => {},
                                }
                            }
                        },
                    }
                },
            }
            index = index + 1;
        }
        Err(WireError::UnterminatedDevices)
    }
}

fn copy_bytes(bytes: &Vec<u8>) -> (r: Vec<u8>)
    ensures
        r@ == bytes@,
{
    let r = bytes.clone();
    assert(r@ =~= bytes@);
    r
}

/// An attribute as bytes: the length of its header and contents, its type, the contents, and zeros
/// up to the next multiple of four.
pub open spec fn attribute_bytes(kind: u16, payload: Seq<u8>) -> Seq<u8> {
    native_bytes16((payload.len() + 4) as u16) + native_bytes16(kind) + payload + Seq::new(
        ((4 - payload.len() % 4) % 4) as nat,
        |i: int| 0u8,
    )
}

proof fn lemma_padding(length: int)
    requires
        length >= 0,
    ensures
        aligned(length + 4) == length + 4 + (4 - length % 4) % 4,
{
    let q = length / 4;
    assert(length == 4 * q + length % 4);
    if length % 4 == 0 {
        assert((length + 7) / 4 == q + 1);
    } else {
        assert((length + 7) / 4 == q + 2);
    }
}

/// Where the parts of an attribute are.
proof fn lemma_attribute_parts(
    length: Seq<u8>,
    number: Seq<u8>,
    payload: Seq<u8>,
    padding: Seq<u8>,
    rest: Seq<u8>,
)
    requires
        length.len() == 2,
        number.len() == 2,
    ensures
        ({
            let one = length + number + payload + padding;
            let all = one + rest;
            let n = payload.len() as int;
            &&& one.len() == 4 + n + padding.len()
            &&& all[0] == length[0] && all[1] == length[1]
            &&& all[2] == number[0] && all[3] == number[1]
            &&& all.subrange(4, n + 4) == payload
            &&& all.take(one.len() as int) == one
            &&& all.skip(one.len() as int) == rest
        }),
{
    let one = length + number + payload + padding;
    let all = one + rest;
    assert(all.subrange(4, payload.len() as int + 4) =~= payload);
    assert(all.take(one.len() as int) =~= one);
    assert(all.skip(one.len() as int) =~= rest);
}

proof fn lemma_attribute_bytes(kind: u16, payload: Seq<u8>, rest: Seq<u8>)
    requires
        payload.len() + 4 < 0x1_0000,
    ensures
        ({
            let one = attribute_bytes(kind, payload);
            let all = one + rest;
            &&& starts_padded(all)
            &&& claimed(all) == payload.len() + 4
            &&& aligned(claimed(all)) == one.len()
            &&& attribute_kind(all) == kind % 0x4000
            &&& all.subrange(4, claimed(all)) == payload
            &&& all.take(one.len() as int) == one
            &&& all.skip(one.len() as int) == rest
        }),
{
    let length = native_bytes16((payload.len() + 4) as u16);
    let number = native_bytes16(kind);
    let padding = Seq::new(((4 - payload.len() % 4) % 4) as nat, |i: int| 0u8);
    law_native_bytes_read_back((payload.len() + 4) as u16, 0);
    law_native_bytes_read_back(kind, 0);
    lemma_padding(payload.len() as int);
    lemma_attribute_parts(length, number, payload, padding, rest);
}

/// An attribute that is written reads back as what it is, whatever follows it: its type without
/// flags, and its contents.
pub proof fn law_written_attributes_read_back(kind: u16, payload: Seq<u8>, rest: Seq<u8>)
    requires
        payload.len() + 4 < 0x1_0000,
    ensures
        attributes(attribute_bytes(kind, payload) + rest) == seq![
            Attribute { kind: kind as int % 0x4000, payload },
        ] + attributes(rest),
        attributes(Seq::empty()).len() == 0,
{
    lemma_attribute_bytes(kind, payload, rest);
}

/// Removing an attribute takes out the first of its type, wherever it stands: one that comes first
/// goes, with its padding, and what follows it stays; one of another type stays, and what follows it
/// is dealt with in the same way.
pub proof fn law_the_first_of_its_type_goes(
    kind: u16,
    payload: Seq<u8>,
    rest: Seq<u8>,
    target: u16,
)
    requires
        payload.len() + 4 < 0x1_0000,
    ensures
        kind % 0x4000 == target ==> without(attribute_bytes(kind, payload) + rest, target) == Some(
            rest,
        ),
        kind % 0x4000 != target ==> (match without(rest, target) {
            Some(shorter) => without(attribute_bytes(kind, payload) + rest, target) == Some(
                attribute_bytes(kind, payload) + shorter,
            ),
            None => without(attribute_bytes(kind, payload) + rest, target) is None,
        }),
{
    lemma_attribute_bytes(kind, payload, rest);
}

/// The number of elements is what the first attribute for it holds, in network byte order, where it
/// is long enough; attributes of other types before it do not matter, nor does what follows it.
pub proof fn law_the_count_is_found(kind: u16, payload: Seq<u8>, rest: Seq<u8>)
    requires
        payload.len() + 4 < 0x1_0000,
    ensures
        kind % 0x4000 == 20 && payload.len() >= 4 ==> counted(attribute_bytes(kind, payload) + rest)
            == Some(
            (0x100_0000 * payload[0] + 0x1_0000 * payload[1] + 0x100 * payload[2]
                + payload[3]) as u32,
        ),
        kind % 0x4000 != 20 || payload.len() < 4 ==> counted(attribute_bytes(kind, payload) + rest)
            == counted(rest),
        counted(Seq::empty()) is None,
{
    lemma_attribute_bytes(kind, payload, rest);
    let all = attribute_bytes(kind, payload) + rest;
    if payload.len() >= 4 {
        let part = all.subrange(4, claimed(all));
        assert(part == payload);
        assert(all.skip(4)[0] == part[0]);
        assert(all.skip(4)[1] == part[1]);
        assert(all.skip(4)[2] == part[2]);
        assert(all.skip(4)[3] == part[3]);
    }
}

/// A message: its length, sixteen more bytes of headers, and a body.
pub open spec fn message_bytes(headers: Seq<u8>, body: Seq<u8>) -> Seq<u8> {
    native_bytes32((20 + body.len()) as u32) + headers + body
}

proof fn lemma_message_bytes(headers: Seq<u8>, body: Seq<u8>, more: Seq<u8>)
    requires
        headers.len() == 16,
        20 + body.len() <= u32::MAX,
    ensures
        message_length(message_bytes(headers, body) + more) == Some(20 + body.len() as int),
        (message_bytes(headers, body) + more).subrange(20, 20 + body.len() as int) == body,
{
    let all = message_bytes(headers, body) + more;
    let length = native_bytes32((20 + body.len()) as u32);
    law_native_bytes_read_back(0, (20 + body.len()) as u32);
    assert(all[0] == length[0] && all[1] == length[1] && all[2] == length[2] && all[3]
        == length[3]);
    assert(native32(all) == native32(length));
    assert(all.subrange(20, 20 + body.len() as int) =~= body);
}

/// A shorter body put in place of a body.
proof fn lemma_shortened(headers: Seq<u8>, body: Seq<u8>, more: Seq<u8>, shorter: Seq<u8>)
    requires
        headers.len() == 16,
        shorter.len() <= body.len(),
        20 + body.len() <= u32::MAX,
    ensures
        ({
            let all = message_bytes(headers, body) + more;
            let total = 20 + shorter.len() as int;
            let length = native_bytes32(total as u32);
            let now = length + all.subrange(4, 20) + shorter + all.skip(total);
            &&& now.take(total) == message_bytes(headers, shorter)
            &&& now.skip(total) == all.skip(total)
        }),
{
    let all = message_bytes(headers, body) + more;
    let total = 20 + shorter.len() as int;
    let length = native_bytes32(total as u32);
    assert(length.len() == 4);
    assert(all.subrange(4, 20) =~= headers);
    let front = length + headers + shorter;
    assert(front.len() == total);
    assert(front == message_bytes(headers, shorter));
    let now = front + all.skip(total);
    assert(now.take(total) =~= front);
    assert(now.skip(total) =~= all.skip(total));
}

/// Removing an attribute from a message makes it the message with the shorter body; the rest of its
/// headers stays, and so do the bytes behind its end.
pub proof fn law_removal_shortens_the_message(
    headers: Seq<u8>,
    body: Seq<u8>,
    more: Seq<u8>,
    target: u16,
)
    requires
        headers.len() == 16,
        20 + body.len() <= u32::MAX,
    ensures
        match without(body, target) {
            Some(shorter) => {
                let all = message_bytes(headers, body) + more;
                let total = 20 + shorter.len() as int;
                &&& removed(all, target).take(total) == message_bytes(headers, shorter)
                &&& removed(all, target).skip(total) == all.skip(total)
            },
            None => removed(message_bytes(headers, body) + more, target) == message_bytes(
                headers,
                body,
            ) + more,
        },
{
    lemma_message_bytes(headers, body, more);
    law_removal_keeps_the_others(body, target);
    match without(body, target) {
        Some(shorter) => lemma_shortened(headers, body, more, shorter),
        None => {},
    }
}

/// What a message about a set says of its number of elements is what its body says, whatever its
/// headers are and whatever follows the message.
pub proof fn law_counts_are_read_from_the_body(
    headers: Seq<u8>,
    body: Seq<u8>,
    more: Seq<u8>,
    bytes: &[u8],
    r: Option<u32>,
)
    requires
        headers.len() == 16,
        20 + body.len() <= u32::MAX,
        bytes@ == message_bytes(headers, body) + more,
        call_ensures(SetInfo::count, (bytes,), r),
    ensures
        r == counted(body),
{
    lemma_message_bytes(headers, body, more);
}

/// A request for a dump says how long it is, what is asked for, that it is a request for all of it,
/// and its sequence number; every other byte of it is zero.
pub proof fn law_dump_requests_say_what_they_ask(message_type: u16, seq: u32, i: int)
    requires
        message_type < 0x100,
    ensures
        ({
            let request = dump_request(message_type, seq);
            &&& request.len() == 20
            &&& native32(request) == 20
            &&& native16(request[4], request[5]) == 0xa00 + message_type
            &&& native16(request[6], request[7]) == 0x301
            &&& native32(request.skip(8)) == seq
            &&& 12 <= i < 20 ==> request[i] == 0
        }),
        GET_TABLE == 1,
        GET_SET == 10,
        GET_FLOWTABLE == 23,
{
    let request = dump_request(message_type, seq);
    let (a, b, c, d) = (
        native_bytes32(20),
        native_bytes16((0xa00 + message_type) as u16),
        native_bytes16(0x301),
        native_bytes32(seq),
    );
    law_native_bytes_read_back((0xa00 + message_type) as u16, 20);
    law_native_bytes_read_back(0x301, seq);
    assert(request[0] == a[0] && request[1] == a[1] && request[2] == a[2] && request[3] == a[3]);
    assert(native32(request) == native32(a));
    assert(request[4] == b[0] && request[5] == b[1]);
    assert(request[6] == c[0] && request[7] == c[1]);
    let tail = request.skip(8);
    assert(tail[0] == d[0] && tail[1] == d[1] && tail[2] == d[2] && tail[3] == d[3]);
    assert(native32(tail) == native32(d));
}

/// A buffer has room for what was asked and for a message header, in whole words, and no word more
/// than that takes.
pub proof fn law_buffers_are_just_large_enough(byte_capacity: int)
    requires
        byte_capacity >= 0,
    ensures
        word_capacity(byte_capacity) % 8 == 0,
        word_capacity(byte_capacity) >= byte_capacity,
        word_capacity(byte_capacity) >= 16,
        word_capacity(byte_capacity) < byte_capacity + 8 || word_capacity(byte_capacity) == 16,
{
}

/// The names in front of the slot that ends the array are the devices, however many they are and
/// whatever follows that slot.
pub proof fn law_terminated_names_are_the_devices(
    slots: Seq<Option<Vec<u8>>>,
    index: int,
    end: int,
)
    requires
        0 <= index <= end < slots.len(),
        end < 4096,
        slots[end] is None,
        forall|i: int|
            index <= i < end ==> (#[trigger] slots[i]) is Some && valid_utf8(slots[i]->0@),
    ensures
        device_texts(slots, index) == Ok::<Seq<Seq<char>>, WireError>(
            Seq::new((end - index) as nat, |i: int| decode_utf8(slots[index + i]->0@)),
        ),
    decreases end - index,
{
    let all = Seq::new((end - index) as nat, |i: int| decode_utf8(slots[index + i]->0@));
    if index < end {
        law_terminated_names_are_the_devices(slots, index + 1, end);
        let rest = Seq::new((end - index - 1) as nat, |i: int| decode_utf8(slots[index + 1 + i]->0@));
        assert(slots[index] is Some);
        assert(seq![decode_utf8(slots[index]->0@)] + rest =~= all);
    } else {
        assert(all =~= Seq::empty());
    }
}

/// The first slot that is no text is what an array is refused for; one without an end among the
/// first 4096 slots is refused as unterminated.
pub proof fn law_malformed_devices_are_refused(
    slots: Seq<Option<Vec<u8>>>,
    index: int,
    end: int,
)
    requires
        0 <= index <= end <= slots.len(),
        end <= 4096,
        end == slots.len() || end == 4096 || slots[end] is Some && !valid_utf8(slots[end]->0@),
        forall|i: int|
            index <= i < end ==> (#[trigger] slots[i]) is Some && valid_utf8(slots[i]->0@),
    ensures
        device_texts(slots, index) == Err::<Seq<Seq<char>>, WireError>(
            if end == slots.len() || end == 4096 {
                WireError::UnterminatedDevices
            } else {
                WireError::DeviceName
            },
        ),
    decreases end - index,
{
    if index < end {
        law_malformed_devices_are_refused(slots, index + 1, end);
        assert(slots[index] is Some);
    }
}

/// A flowtable has the devices of its array, from the first slot on; without an array it has none to
/// give.
pub proof fn law_flowtables_have_their_array(table: Flowtable)
    ensures
        table.devices is Unset <==> table.names() == Err::<Seq<Seq<char>>, WireError>(
            WireError::NoDevices,
        ),
        table.devices is Null <==> table.names() == Err::<Seq<Seq<char>>, WireError>(
            WireError::NullDevices,
        ),
        table.devices matches DeviceArray::Slots(slots) ==> table.names() == device_texts(slots@, 0),
{
    match table.devices {
        DeviceArray::Slots(slots) => lemma_device_errors(slots@, 0),
        _ => {},
    }
}

proof fn lemma_device_errors(slots: Seq<Option<Vec<u8>>>, index: int)
    ensures
        device_texts(slots, index) matches Err(error) ==> error is DeviceName || error
            is UnterminatedDevices,
    decreases MAX_FLOWTABLE_DEVICES - index,
{
    if 0 <= index < MAX_FLOWTABLE_DEVICES {
        lemma_device_errors(slots, index + 1);
    }
}

/// What is wrong with a message is told apart from everything else that can be wrong with one.
pub proof fn law_wire_errors_are_told_apart(a: WireError, b: WireError)
    requires
        a != b,
    ensures
        a.text() != b.text(),
{
    reveal_strlit("netlink message exceeds its aligned buffer");
    reveal_strlit("flowtable response has no device array");
    reveal_strlit("flowtable returned a null device array");
    reveal_strlit("flowtable device is not UTF-8");
    reveal_strlit("flowtable device array is not terminated");
    reveal_strlit("unexpected netlink ACK");
    assert(WireError::Oversized.text().len() == 42);
    assert(WireError::NoDevices.text().len() == 38);
    assert(WireError::NullDevices.text().len() == 38);
    assert(WireError::DeviceName.text().len() == 29);
    assert(WireError::UnterminatedDevices.text().len() == 40);
    assert(WireError::UnexpectedAck.text().len() == 22);
    assert(WireError::NoDevices.text()[12] == 's');
    assert(WireError::NullDevices.text()[12] == 't');
}

} // verus!
