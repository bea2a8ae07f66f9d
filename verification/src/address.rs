//! Address intervals and the CIDR prefixes they decompose into.
//!
//! Addresses are plain integers in host order: `u32` for IPv4, `u128` for IPv6.
use crate::bits::highest_bit_u128;
use crate::bits::highest_bit_u64;
use crate::bits::power_u128;
use crate::bits::trailing_zeros_u128;
use crate::bits::trailing_zeros_u64;
use crate::dyadic::Block;
use vstd::arithmetic::power2::*;
use vstd::prelude::*;

verus! {

/// A range of addresses of one family: `first` up to, but not including, `after_last`. Without
/// `after_last` the range extends to the end of the address space.
#[derive(Debug, Clone, Copy, PartialEq, Eq, Structural)]
#[allow(inconsistent_fields)]
pub enum AddressInterval {
    V4 { first: u32, after_last: Option<u32> },
    V6 { first: u128, after_last: Option<u128> },
}

/// A CIDR prefix.
#[derive(Debug, Clone, Copy, PartialEq, Eq, Structural)]
#[allow(inconsistent_fields)]
pub enum AddressPrefix {
    V4 { address: u32, prefix_len: u8 },
    V6 { address: u128, prefix_len: u8 },
}

/// The addresses `first..end` of one family, over mathematical integers.
pub struct Span {
    pub v6: bool,
    pub first: int,
    pub end: int,
}

impl Span {
    pub open spec fn contains(self, v6: bool, address: int) -> bool {
        self.v6 == v6 && self.first <= address < self.end
    }

    /// How many set elements mark the span: its start, and its end unless the address space ends
    /// there.
    pub open spec fn boundaries(self) -> nat {
        if self.end == space(self.v6) {
            1
        } else {
            2
        }
    }
}

/// The number of address bits of a family.
pub open spec fn width(v6: bool) -> nat {
    if v6 {
        128
    } else {
        32
    }
}

/// The number of addresses of a family.
pub open spec fn space(v6: bool) -> int {
    pow2(width(v6)) as int
}

pub proof fn lemma_space()
    ensures
        space(false) == 0x1_0000_0000,
        space(true) == u128::MAX + 1,
{
    lemma2_to64();
    lemma2_to64_rest();
    lemma_pow2_adds(64, 64);
    assert(pow2(64) * pow2(64) == u128::MAX + 1);
}

impl AddressInterval {
    pub open spec fn span(self) -> Span {
        match self {
            AddressInterval::V4 { first, after_last } => Span {
                v6: false,
                first: first as int,
                end: match after_last {
                    Some(after) => after as int,
                    None => space(false),
                },
            },
            AddressInterval::V6 { first, after_last } => Span {
                v6: true,
                first: first as int,
                end: match after_last {
                    Some(after) => after as int,
                    None => space(true),
                },
            },
        }
    }

    /// The interval holds at least one address.
    pub open spec fn wf(self) -> bool {
        self.span().first < self.span().end
    }

    /// The number of set elements that mark the interval: its first address, and the address
    /// after its last one unless the address space ends there.
    pub fn boundary_elements(self) -> (n: usize)
        ensures
            n == self.span().boundaries(),
    {
        proof {
            lemma_space();
        }
        match self {
            AddressInterval::V4 { first: _, after_last } => {
                if after_last.is_some() {
                    2
                } else {
                    1
                }
            },
            AddressInterval::V6 { first: _, after_last } => {
                if after_last.is_some() {
                    2
                } else {
                    1
                }
            },
        }
    }
}

impl AddressPrefix {
    pub open spec fn v6(self) -> bool {
        self is V6
    }

    pub open spec fn block(self) -> Block {
        match self {
            AddressPrefix::V4 { address, prefix_len } => Block {
                start: address as int,
                bits: (32 - prefix_len) as nat,
            },
            AddressPrefix::V6 { address, prefix_len } => Block {
                start: address as int,
                bits: (128 - prefix_len) as nat,
            },
        }
    }

    /// The prefix length fits the family.
    pub open spec fn wf(self) -> bool {
        match self {
            AddressPrefix::V4 { prefix_len, .. } => prefix_len <= 32,
            AddressPrefix::V6 { prefix_len, .. } => prefix_len <= 128,
        }
    }
}

/// The blocks of the prefixes.
pub open spec fn blocks(prefixes: Seq<AddressPrefix>) -> Seq<Block> {
    prefixes.map_values(|p: AddressPrefix| p.block())
}

/// Some prefix of the family contains the address: what a longest-prefix-match table that holds
/// the prefixes answers.
pub open spec fn prefixes_contain(
    prefixes: Seq<AddressPrefix>,
    v6: bool,
    address: int,
) -> bool {
    exists|i: int|
        0 <= i < prefixes.len() && (#[trigger] prefixes[i]).v6() == v6
            && prefixes[i].block().contains(address)
}

/// A longer run of tiles, by the block that follows it.
proof fn lemma_push_tile(tiles: Seq<Block>, start: int, end: int, next: Block)
    requires
        crate::dyadic::tiles(tiles, start, end),
        next.start == end,
    ensures
        crate::dyadic::tiles(tiles.push(next), start, next.end()),
{
    let longer = tiles.push(next);
    assert forall|i: int| 0 <= i < longer.len() - 1 implies (#[trigger] longer[i]).end()
        == longer[i + 1].start by {
        assert(longer[i] == tiles[i]);
    }
}

/// The largest aligned block at `start` within a range has as many host bits as the alignment of
/// the start and the length of the range both allow.
proof fn lemma_largest_block(start: int, end: int, host_bits: nat, fit: nat)
    requires
        0 <= start < end,
        host_bits <= fit,
        start % (pow2(host_bits) as int) == 0,
        crate::bits::floor_power(end - start, fit),
        host_bits == fit || start % (pow2(host_bits + 1) as int) != 0,
    ensures
        crate::dyadic::largest_at(start, host_bits, end),
{
    crate::dyadic::lemma_pow2_monotonic(host_bits, fit);
}

/// The exponent of the largest aligned block that starts at `start` and fits `length` addresses.
fn host_bits_u64(start: u64, length: u64) -> (bits: u32)
    requires
        0 < length,
        start + length <= 0x1_0000_0000,
    ensures
        bits <= 32,
        crate::dyadic::largest_at(start as int, bits as nat, start + length),
{
    let fit: u32 = highest_bit_u64(length);
    proof {
        lemma_space();
        if fit > 32 {
            lemma_pow2_strictly_increases(32, fit as nat);
        }
    }
    if start == 0 {
        proof {
            lemma_pow2_pos(fit as nat);
            lemma_largest_block(0, length as int, fit as nat, fit as nat);
        }
        fit
    } else {
        let alignment: u32 = trailing_zeros_u64(start);
        if alignment < fit {
            proof {
                lemma_largest_block(
                    start as int,
                    start + length,
                    alignment as nat,
                    fit as nat,
                );
            }
            alignment
        } else {
            proof {
                crate::dyadic::lemma_multiple_of_smaller(
                    start as int,
                    fit as nat,
                    alignment as nat,
                );
                lemma_largest_block(start as int, start + length, fit as nat, fit as nat);
            }
            fit
        }
    }
}

/// The exponent of the largest aligned block that starts at `start` and fits `length` addresses.
fn host_bits_u128(start: u128, length: u128) -> (bits: u32)
    requires
        0 < length,
        start + length <= space(true),
    ensures
        bits < 128,
        crate::dyadic::largest_at(start as int, bits as nat, start + length),
{
    let fit: u32 = highest_bit_u128(length);
    if start == 0 {
        proof {
            lemma_pow2_pos(fit as nat);
            lemma_largest_block(0, length as int, fit as nat, fit as nat);
        }
        fit
    } else {
        let alignment: u32 = trailing_zeros_u128(start);
        if alignment < fit {
            proof {
                lemma_largest_block(
                    start as int,
                    start + length,
                    alignment as nat,
                    fit as nat,
                );
            }
            alignment
        } else {
            proof {
                crate::dyadic::lemma_multiple_of_smaller(
                    start as int,
                    fit as nat,
                    alignment as nat,
                );
                lemma_largest_block(start as int, start + length, fit as nat, fit as nat);
            }
            fit
        }
    }
}

/// The prefixes are well formed, all of one family.
pub open spec fn of_family(prefixes: Seq<AddressPrefix>, v6: bool) -> bool {
    forall|i: int|
        0 <= i < prefixes.len() ==> (#[trigger] prefixes[i]).wf() && prefixes[i].v6() == v6
}

/// The prefixes found so far tile a part of the range; one more extends them.
proof fn lemma_push_prefix(
    prefixes: Seq<AddressPrefix>,
    first: int,
    start: int,
    end: int,
    next: AddressPrefix,
)
    requires
        crate::dyadic::tiles(blocks(prefixes), first, start),
        forall|i: int|
            0 <= i < prefixes.len() ==> (#[trigger] prefixes[i]).block().aligned()
                && prefixes[i].block().maximal(end),
        next.block().start == start,
        next.block().aligned(),
        next.block().maximal(end),
    ensures
        crate::dyadic::tiles(blocks(prefixes.push(next)), first, next.block().end()),
        forall|i: int|
            0 <= i < prefixes.len() + 1 ==> (#[trigger] prefixes.push(next)[i]).block().aligned()
                && prefixes.push(next)[i].block().maximal(end),
{
    lemma_push_tile(blocks(prefixes), first, start, next.block());
    assert(blocks(prefixes.push(next)) =~= blocks(prefixes).push(next.block()));
    assert forall|i: int| 0 <= i < prefixes.len() + 1 implies (#[trigger] prefixes.push(
        next,
    )[i]).block().aligned() && prefixes.push(next)[i].block().maximal(end) by {
        if i < prefixes.len() {
            assert(prefixes.push(next)[i] == prefixes[i]);
        }
    }
}

fn prefixes_v4(first: u32, end: u64) -> (out: Vec<AddressPrefix>)
    requires
        first < end <= 0x1_0000_0000,
    ensures
        of_family(out@, false),
        crate::dyadic::decomposes(blocks(out@), first as int, end as int),
{
    let mut out: Vec<AddressPrefix> = Vec::new();
    let mut start: u64 = first as u64;
    while start < end
        invariant
            first <= start <= end <= 0x1_0000_0000,
            of_family(out@, false),
            crate::dyadic::tiles(blocks(out@), first as int, start as int),
            forall|i: int|
                0 <= i < out@.len() ==> (#[trigger] out@[i]).block().aligned()
                    && out@[i].block().maximal(end as int),
        decreases end - start,
    {
        let host_bits: u32 = host_bits_u64(start, end - start);
        let prefix = AddressPrefix::V4 {
            address: start as u32,
            prefix_len: (32 - host_bits) as u8,
        };
        proof {
            lemma_space();
            lemma_pow2_pos(host_bits as nat);
            assert(prefix.block() == Block { start: start as int, bits: host_bits as nat });
            lemma_push_prefix(out@, first as int, start as int, end as int, prefix);
            crate::dyadic::lemma_pow2_monotonic(host_bits as nat, 32);
            vstd::bits::lemma_u64_shl_is_mul(1, host_bits as u64);
        }
        out.push(prefix);
        start = start + (1u64 << host_bits);
    }
    proof {
        lemma_decomposed(out@, first as int, end as int);
    }
    out
}

proof fn lemma_decomposed(prefixes: Seq<AddressPrefix>, first: int, end: int)
    requires
        crate::dyadic::tiles(blocks(prefixes), first, end),
        forall|i: int|
            0 <= i < prefixes.len() ==> (#[trigger] prefixes[i]).block().aligned()
                && prefixes[i].block().maximal(end),
    ensures
        crate::dyadic::decomposes(blocks(prefixes), first, end),
{
    let all = blocks(prefixes);
    assert forall|i: int| 0 <= i < all.len() implies (#[trigger] all[i]).aligned()
        && all[i].maximal(end) by {
        assert(prefixes[i].block() == all[i]);
    }
}

fn prefixes_v6(first: u128, last: u128) -> (out: Vec<AddressPrefix>)
    requires
        first <= last,
    ensures
        of_family(out@, true),
        crate::dyadic::decomposes(blocks(out@), first as int, last + 1),
{
    let mut out: Vec<AddressPrefix> = Vec::new();
    proof {
        lemma_space();
    }
    if first == 0 && last == u128::MAX {
        let prefix = AddressPrefix::V6 { address: 0, prefix_len: 0 };
        proof {
            lemma_pow2_pos(128);
            lemma_pow2_unfold(129);
            assert(prefix.block() == Block { start: 0, bits: 128 });
            lemma_push_prefix(out@, 0, 0, last + 1, prefix);
            lemma_decomposed(out@.push(prefix), 0, last + 1);
        }
        out.push(prefix);
        return out;
    }
    let mut start: u128 = first;
    loop
        invariant_except_break
            first <= start <= last,
            start > 0 || last < u128::MAX,
            space(true) == u128::MAX + 1,
            of_family(out@, true),
            crate::dyadic::tiles(blocks(out@), first as int, start as int),
            forall|i: int|
                0 <= i < out@.len() ==> (#[trigger] out@[i]).block().aligned()
                    && out@[i].block().maximal(last + 1),
        ensures
            of_family(out@, true),
            crate::dyadic::decomposes(blocks(out@), first as int, last + 1),
        decreases last - start,
    {
        let host_bits: u32 = host_bits_u128(start, last - start + 1);
        let prefix = AddressPrefix::V6 { address: start, prefix_len: (128 - host_bits) as u8 };
        let size: u128 = power_u128(host_bits);
        proof {
            lemma_pow2_pos(host_bits as nat);
            assert(prefix.block() == Block { start: start as int, bits: host_bits as nat });
            lemma_push_prefix(out@, first as int, start as int, last + 1, prefix);
        }
        out.push(prefix);
        if size > last - start {
            proof {
                assert(prefix.block().end() == last + 1);
                lemma_decomposed(out@, first as int, last + 1);
            }
            break;
        }
        start = start + size;
    }
    out
}

/// Decompose an address interval into the smallest set of CIDR prefixes.
///
/// The prefixes come in ascending order, lie one after the other and together hold exactly the
/// addresses of the interval.
pub fn interval_prefixes(interval: AddressInterval) -> (out: Vec<AddressPrefix>)
    requires
        interval.wf(),
    ensures
        of_family(out@, interval.span().v6),
        crate::dyadic::decomposes(blocks(out@), interval.span().first, interval.span().end),
{
    proof {
        lemma_space();
    }
    match interval {
        AddressInterval::V4 { first, after_last } => {
            let end: u64 = match after_last {
                Some(after) => after as u64,
                None => 0x1_0000_0000,
            };
            prefixes_v4(first, end)
        },
        AddressInterval::V6 { first, after_last } => {
            let last: u128 = match after_last {
                Some(after) => after - 1,
                None => u128::MAX,
            };
            prefixes_v6(first, last)
        },
    }
}

/// Prefixes that decompose a span contain exactly its addresses.
pub proof fn lemma_prefixes_cover(
    prefixes: Seq<AddressPrefix>,
    span: Span,
    v6: bool,
    address: int,
)
    requires
        of_family(prefixes, span.v6),
        crate::dyadic::decomposes(blocks(prefixes), span.first, span.end),
    ensures
        prefixes_contain(prefixes, v6, address) <==> span.contains(v6, address),
{
    let all = blocks(prefixes);
    crate::dyadic::law_tiles_cover_range(all, span.first, span.end, address);
    if prefixes_contain(prefixes, v6, address) {
        let i = choose|i: int|
            0 <= i < prefixes.len() && (#[trigger] prefixes[i]).v6() == v6
                && prefixes[i].block().contains(address);
        assert(all[i].contains(address));
    }
    if span.contains(v6, address) {
        let i = choose|i: int| 0 <= i < all.len() && (#[trigger] all[i]).contains(address);
        assert(prefixes[i].block().contains(address));
    }
}

/// The prefixes of an interval contain exactly the addresses of the interval.
pub proof fn law_interval_prefixes_cover(
    interval: AddressInterval,
    prefixes: Seq<AddressPrefix>,
    v6: bool,
    address: int,
)
    requires
        interval.wf(),
        of_family(prefixes, interval.span().v6),
        crate::dyadic::decomposes(blocks(prefixes), interval.span().first, interval.span().end),
    ensures
        prefixes_contain(prefixes, v6, address) <==> interval.span().contains(v6, address),
{
    lemma_prefixes_cover(prefixes, interval.span(), v6, address);
}

/// No set of CIDR prefixes that holds exactly the addresses of an interval is smaller than its
/// decomposition.
pub proof fn law_interval_prefixes_smallest(
    interval: AddressInterval,
    prefixes: Seq<AddressPrefix>,
    other: Set<Block>,
)
    requires
        interval.wf(),
        crate::dyadic::decomposes(blocks(prefixes), interval.span().first, interval.span().end),
        other.finite(),
        crate::dyadic::covers_exactly(other, interval.span().first, interval.span().end),
    ensures
        prefixes.len() <= other.len(),
{
    crate::dyadic::law_decomposition_is_smallest(
        blocks(prefixes),
        interval.span().first,
        interval.span().end,
        other,
    );
}

} // verus!
