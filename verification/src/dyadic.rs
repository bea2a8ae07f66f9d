//! Aligned power-of-two blocks: the arithmetic behind CIDR prefixes.
//!
//! A CIDR prefix is a block of `2^bits` consecutive addresses that starts at a multiple of its
//! size. Both address families share this model; only the width of the address space differs.
use vstd::arithmetic::power2::*;
use vstd::prelude::*;

verus! {

/// The `2^bits` consecutive addresses that start at `start`.
pub struct Block {
    pub start: int,
    pub bits: nat,
}

impl Block {
    /// The first address after the block.
    pub open spec fn end(self) -> int {
        self.start + pow2(self.bits)
    }

    pub open spec fn contains(self, address: int) -> bool {
        self.start <= address < self.end()
    }

    /// The start has no host bits set, so the block is a CIDR prefix.
    pub open spec fn aligned(self) -> bool {
        self.start % (pow2(self.bits) as int) == 0
    }

    /// No larger aligned block starts at the same address and ends at or before `end`.
    pub open spec fn maximal(self, end: int) -> bool {
        !(Block { start: self.start, bits: self.bits + 1 }.aligned() && self.start + pow2(
            self.bits + 1,
        ) <= end)
    }
}

/// The block of `2^bits` addresses at `start` is the largest aligned one that ends by `end`.
pub open spec fn largest_at(start: int, bits: nat, end: int) -> bool {
    let block = Block { start, bits };
    block.aligned() && block.maximal(end) && block.end() <= end
}

/// The blocks lie one after the other and together are exactly `start..end`.
pub open spec fn tiles(blocks: Seq<Block>, start: int, end: int) -> bool {
    &&& blocks.len() == 0 ==> start == end
    &&& blocks.len() > 0 ==> blocks[0].start == start && blocks.last().end() == end
    &&& forall|i: int|
        0 <= i < blocks.len() - 1 ==> (#[trigger] blocks[i]).end() == blocks[i + 1].start
}

/// The greedy decomposition: aligned blocks, in order, each as large as its start and the end of
/// the range allow.
pub open spec fn decomposes(blocks: Seq<Block>, start: int, end: int) -> bool {
    &&& tiles(blocks, start, end)
    &&& forall|i: int|
        0 <= i < blocks.len() ==> (#[trigger] blocks[i]).aligned() && blocks[i].maximal(end)
}

/// Some block contains the address.
pub open spec fn covers(blocks: Seq<Block>, address: int) -> bool {
    exists|i: int| 0 <= i < blocks.len() && (#[trigger] blocks[i]).contains(address)
}

/// The blocks of the set are aligned, and their union is exactly `start..end`.
pub open spec fn covers_exactly(blocks: Set<Block>, start: int, end: int) -> bool {
    &&& forall|b: Block| #[trigger]
        blocks.contains(b) ==> b.aligned() && start <= b.start && b.end() <= end
    &&& forall|a: int| start <= a < end ==> #[trigger] set_contains_address(blocks, a)
}

pub open spec fn set_contains_address(blocks: Set<Block>, address: int) -> bool {
    exists|b: Block| #[trigger] blocks.contains(b) && b.contains(address)
}

pub proof fn lemma_pow2_monotonic(a: nat, b: nat)
    requires
        a <= b,
    ensures
        0 < pow2(a) <= pow2(b),
{
    lemma_pow2_pos(a);
    if a < b {
        lemma_pow2_strictly_increases(a, b);
    }
}

/// A multiple of a larger power of two is a multiple of every smaller one.
pub proof fn lemma_multiple_of_smaller(x: int, small: nat, large: nat)
    requires
        small <= large,
        x % (pow2(large) as int) == 0,
    ensures
        x % (pow2(small) as int) == 0,
{
    let rest = (large - small) as nat;
    lemma_pow2_adds(small, rest);
    lemma_pow2_pos(small);
    lemma_pow2_pos(large);
    lemma_pow2_pos(rest);
    let q = x / (pow2(large) as int);
    let (s, r) = (pow2(small) as int, pow2(rest) as int);
    vstd::arithmetic::div_mod::lemma_fundamental_div_mod(x, pow2(large) as int);
    assert(x == s * (r * q)) by (nonlinear_arith)
        requires
            x == (s * r) * q,
    ;
    vstd::arithmetic::div_mod::lemma_mod_multiples_basic(r * q, s);
    assert((r * q) * s == s * (r * q)) by (nonlinear_arith);
}

/// Two multiples of `size` that are less than `size` apart are equal.
proof fn lemma_close_multiples(a: int, b: int, size: int)
    requires
        size > 0,
        a % size == 0,
        b % size == 0,
        a <= b < a + size,
    ensures
        a == b,
{
    vstd::arithmetic::div_mod::lemma_fundamental_div_mod(a, size);
    vstd::arithmetic::div_mod::lemma_fundamental_div_mod(b, size);
    let (p, q) = (a / size, b / size);
    assert(p == q) by (nonlinear_arith)
        requires
            size > 0,
            a == size * p,
            b == size * q,
            a <= b < a + size,
    ;
}

/// Of two aligned blocks, one that starts inside the other and is no larger ends inside it too.
proof fn lemma_smaller_block_nested(outer: Block, inner: Block)
    requires
        outer.aligned(),
        inner.aligned(),
        inner.bits <= outer.bits,
        outer.contains(inner.start),
    ensures
        inner.end() <= outer.end(),
{
    lemma_pow2_monotonic(inner.bits, outer.bits);
    let size = pow2(inner.bits) as int;
    lemma_multiple_of_smaller(outer.start, inner.bits, outer.bits);
    let whole = pow2(outer.bits) as int;
    vstd::arithmetic::div_mod::lemma_mod_self_0(whole);
    lemma_multiple_of_smaller(whole, inner.bits, outer.bits);
    vstd::arithmetic::div_mod::lemma_fundamental_div_mod(outer.start, size);
    vstd::arithmetic::div_mod::lemma_fundamental_div_mod(whole, size);
    vstd::arithmetic::div_mod::lemma_fundamental_div_mod(inner.start, size);
    let (a, w, b) = (outer.start / size, whole / size, inner.start / size);
    vstd::arithmetic::mul::lemma_mul_is_distributive_add(size, a, w);
    vstd::arithmetic::mul::lemma_mul_is_distributive_add(size, b, 1);
    if b >= a + w {
        vstd::arithmetic::mul::lemma_mul_inequality(a + w, b, size);
        vstd::arithmetic::mul::lemma_mul_is_commutative(a + w, size);
        vstd::arithmetic::mul::lemma_mul_is_commutative(b, size);
    }
    vstd::arithmetic::mul::lemma_mul_inequality(b + 1, a + w, size);
    vstd::arithmetic::mul::lemma_mul_is_commutative(a + w, size);
    vstd::arithmetic::mul::lemma_mul_is_commutative(b + 1, size);
}

/// An aligned block that starts where a maximal one does and fits the range is no larger.
proof fn lemma_maximal_is_largest(block: Block, other: Block, end: int)
    requires
        block.maximal(end),
        other.aligned(),
        other.start == block.start,
        other.end() <= end,
    ensures
        other.bits <= block.bits,
{
    if other.bits > block.bits {
        lemma_multiple_of_smaller(other.start, block.bits + 1, other.bits);
        lemma_pow2_monotonic(block.bits + 1, other.bits);
        assert(Block { start: block.start, bits: block.bits + 1 }.aligned());
    }
}

/// The greedy decomposition of a range is a smallest one: no set of aligned blocks whose union is
/// the range has fewer members.
pub proof fn law_decomposition_is_smallest(
    blocks: Seq<Block>,
    start: int,
    end: int,
    other: Set<Block>,
)
    requires
        decomposes(blocks, start, end),
        other.finite(),
        covers_exactly(other, start, end),
    ensures
        blocks.len() <= other.len(),
    decreases blocks.len(),
{
    if blocks.len() > 0 {
        let first = blocks[0];
        lemma_tiles_bounds(blocks, start, end, 0);
        lemma_pow2_pos(first.bits);
        assert(set_contains_address(other, start));
        let at_start = choose|b: Block| #[trigger] other.contains(b) && b.contains(start);
        lemma_maximal_is_largest(first, at_start, end);
        let later = |b: Block| b.start >= first.end();
        let rest = other.filter(later);
        let tail = blocks.drop_first();
        lemma_decomposition_tail(blocks, start, end);
        assert forall|a: int| first.end() <= a < end implies #[trigger] set_contains_address(
            rest,
            a,
        ) by {
            assert(set_contains_address(other, a));
            let b = choose|b: Block| #[trigger] other.contains(b) && b.contains(a);
            if b.start < first.end() {
                lemma_straddling_block(first, b, end);
            }
            assert(rest.contains(b));
        }
        other.lemma_len_filter(later);
        law_decomposition_is_smallest(tail, first.end(), end, rest);
        assert(!rest.contains(at_start));
        assert(rest.subset_of(other.remove(at_start)));
        vstd::set_lib::lemma_len_subset(rest, other.remove(at_start));
    }
}

/// No aligned block that fits the range starts in a maximal aligned block and ends after it.
proof fn lemma_straddling_block(block: Block, other: Block, end: int)
    requires
        block.aligned(),
        block.maximal(end),
        other.aligned(),
        block.contains(other.start),
        other.end() <= end,
    ensures
        other.end() <= block.end(),
{
    if other.bits <= block.bits {
        lemma_smaller_block_nested(block, other);
    } else {
        lemma_multiple_of_smaller(other.start, block.bits, other.bits);
        lemma_pow2_pos(block.bits);
        lemma_close_multiples(block.start, other.start, pow2(block.bits) as int);
        lemma_maximal_is_largest(block, other, end);
    }
}

proof fn lemma_tiles_tail(blocks: Seq<Block>, start: int, end: int)
    requires
        tiles(blocks, start, end),
        blocks.len() > 0,
    ensures
        tiles(blocks.drop_first(), blocks[0].end(), end),
{
    let tail = blocks.drop_first();
    assert forall|i: int| 0 <= i < tail.len() - 1 implies (#[trigger] tail[i]).end() == tail[i
        + 1].start by {
        assert(tail[i] == blocks[i + 1]);
    }
}

/// An aligned block that starts in an address space of `2^width` addresses ends in it.
pub proof fn lemma_aligned_end(block: Block, width: nat)
    requires
        block.aligned(),
        block.bits <= width,
        0 <= block.start < pow2(width),
    ensures
        block.end() <= pow2(width),
{
    let whole = Block { start: 0, bits: width };
    lemma_pow2_pos(width);
    lemma_smaller_block_nested(whole, block);
}

/// Each block of a tiling lies within the tiled range.
pub proof fn lemma_tiles_bounds(blocks: Seq<Block>, start: int, end: int, i: int)
    requires
        tiles(blocks, start, end),
        0 <= i < blocks.len(),
    ensures
        start <= blocks[i].start < blocks[i].end() <= end,
    decreases blocks.len(),
{
    lemma_pow2_pos(blocks[0].bits);
    lemma_pow2_pos(blocks[i].bits);
    let tail = blocks.drop_first();
    if blocks.len() > 1 {
        lemma_tiles_tail(blocks, start, end);
        if i > 0 {
            lemma_tiles_bounds(tail, blocks[0].end(), end, i - 1);
        } else {
            lemma_tiles_bounds(tail, blocks[0].end(), end, 0);
        }
    }
}

/// The blocks of a tiling contain exactly the addresses of the tiled range.
pub proof fn law_tiles_cover_range(blocks: Seq<Block>, start: int, end: int, address: int)
    requires
        tiles(blocks, start, end),
    ensures
        covers(blocks, address) <==> start <= address < end,
    decreases blocks.len(),
{
    if blocks.len() == 0 {
    } else if blocks.len() == 1 {
        if start <= address < end {
            assert(blocks[0].contains(address));
        }
    } else {
        let tail = blocks.drop_first();
        lemma_tiles_tail(blocks, start, end);
        law_tiles_cover_range(tail, blocks[0].end(), end, address);
        if covers(blocks, address) {
            let i = choose|i: int| 0 <= i < blocks.len() && (#[trigger] blocks[i]).contains(address);
            lemma_tiles_bounds(blocks, start, end, i);
        }
        if start <= address < end {
            if address < blocks[0].end() {
                assert(blocks[0].contains(address));
            } else {
                let i = choose|i: int| 0 <= i < tail.len() && (#[trigger] tail[i]).contains(address);
                assert(blocks[i + 1].contains(address));
            }
        }
    }
}

/// Only one sequence of blocks is the greedy decomposition of a range.
pub proof fn law_decomposition_is_unique(a: Seq<Block>, b: Seq<Block>, start: int, end: int)
    requires
        decomposes(a, start, end),
        decomposes(b, start, end),
    ensures
        a == b,
    decreases a.len(),
{
    if a.len() > 0 {
        lemma_tiles_bounds(a, start, end, 0);
    }
    if b.len() > 0 {
        lemma_tiles_bounds(b, start, end, 0);
    }
    if a.len() > 0 && b.len() > 0 {
        lemma_maximal_is_largest(a[0], b[0], end);
        lemma_maximal_is_largest(b[0], a[0], end);
        let (ta, tb) = (a.drop_first(), b.drop_first());
        lemma_decomposition_tail(a, start, end);
        lemma_decomposition_tail(b, start, end);
        law_decomposition_is_unique(ta, tb, a[0].end(), end);
        assert(a =~= seq![a[0]] + ta);
        assert(b =~= seq![b[0]] + tb);
    } else {
        assert(a =~= b);
    }
}

proof fn lemma_decomposition_tail(blocks: Seq<Block>, start: int, end: int)
    requires
        decomposes(blocks, start, end),
        blocks.len() > 0,
    ensures
        decomposes(blocks.drop_first(), blocks[0].end(), end),
{
    let tail = blocks.drop_first();
    lemma_tiles_tail(blocks, start, end);
    assert forall|i: int| 0 <= i < tail.len() implies (#[trigger] tail[i]).aligned()
        && tail[i].maximal(end) by {
        assert(tail[i] == blocks[i + 1]);
    }
}

} // verus!
