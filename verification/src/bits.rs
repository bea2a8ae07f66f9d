//! Powers of two in machine integers.
use vstd::arithmetic::power2::*;
use vstd::prelude::*;

verus! {

/// `x` is a multiple of `2^k` and of no larger power of two.
pub open spec fn exact_power(x: int, k: nat) -> bool {
    &&& x % (pow2(k) as int) == 0
    &&& x % (pow2(k + 1) as int) != 0
}

/// `2^k` is the largest power of two that is at most `x`.
pub open spec fn floor_power(x: int, k: nat) -> bool {
    pow2(k) <= x < pow2(k + 1)
}

/// A number whose quotients by `2^0, .., 2^(k-1)` are all even is a multiple of `2^k`.
proof fn lemma_even_quotients(x: nat, k: nat)
    requires
        forall|j: nat| j < k ==> (x / #[trigger] pow2(j)) % 2 == 0,
    ensures
        x as int % (pow2(k) as int) == 0,
    decreases k,
{
    lemma_pow2_pos(k);
    if k == 0 {
        lemma2_to64();
    } else {
        let j = (k - 1) as nat;
        lemma_even_quotients(x, j);
        lemma_pow2_unfold(k);
        lemma_pow2_pos(j);
        let (p, q) = (pow2(j) as int, x as int / (pow2(j) as int));
        vstd::arithmetic::div_mod::lemma_fundamental_div_mod(x as int, p);
        assert((x / pow2(j)) % 2 == 0);
        let h = q / 2;
        assert(x as int == (2 * p) * h) by (nonlinear_arith)
            requires
                x as int == p * q,
                q == 2 * h,
        ;
        vstd::arithmetic::div_mod::lemma_mod_multiples_basic(h, 2 * p);
        assert(h * (2 * p) == (2 * p) * h) by (nonlinear_arith);
    }
}

/// A multiple of `2^k` whose quotient is odd is no multiple of `2^(k+1)`.
proof fn lemma_odd_quotient(x: int, k: nat)
    requires
        (x / (pow2(k) as int)) % 2 == 1,
        x % (pow2(k) as int) == 0,
    ensures
        exact_power(x, k),
{
    lemma_pow2_pos(k);
    lemma_pow2_unfold(k + 1);
    let p = pow2(k) as int;
    let q = x / p;
    vstd::arithmetic::div_mod::lemma_fundamental_div_mod(x, p);
    if x % (2 * p) == 0 {
        vstd::arithmetic::div_mod::lemma_fundamental_div_mod(x, 2 * p);
        let r = x / (2 * p);
        assert(q == 2 * r) by (nonlinear_arith)
            requires
                p > 0,
                x == p * q,
                x == (2 * p) * r,
        ;
    }
}

/// The number of trailing zero bits.
pub fn trailing_zeros_u64(x: u64) -> (k: u32)
    requires
        x != 0,
    ensures
        k < 64,
        exact_power(x as int, k as nat),
{
    let k: u32 = x.trailing_zeros();
    proof {
        vstd::std_specs::bits::axiom_u64_trailing_zeros(x);
        let s = k as u64;
        vstd::bits::lemma_u64_shr_is_div(x, s);
        let top = x >> s;
        assert(top & 1 == top % 2) by (bit_vector);
        assert forall|j: nat| j < k implies (x as nat / #[trigger] pow2(j)) % 2 == 0 by {
            let i = j as u64;
            assert((x >> i) & 1u64 == 0u64);
            vstd::bits::lemma_u64_shr_is_div(x, i);
            let y = x >> i;
            assert(y & 1 == y % 2) by (bit_vector);
        }
        lemma_even_quotients(x as nat, k as nat);
        lemma_odd_quotient(x as int, k as nat);
    }
    k
}

/// The position of the highest set bit.
pub fn highest_bit_u64(x: u64) -> (k: u32)
    requires
        x != 0,
    ensures
        k < 64,
        floor_power(x as int, k as nat),
{
    proof {
        vstd::std_specs::bits::axiom_u64_leading_zeros(x);
    }
    let zeros: u32 = x.leading_zeros();
    let k: u32 = 63 - zeros;
    proof {
        let s = k as u64;
        vstd::bits::lemma_u64_shr_is_div(x, s);
        let top = x >> s;
        assert(top & 1 != 0 ==> top >= 1) by (bit_vector);
        lemma_pow2_pos(k as nat);
        vstd::arithmetic::div_mod::lemma_fundamental_div_mod(x as int, pow2(k as nat) as int);
        let (p, q) = (pow2(k as nat) as int, x as int / (pow2(k as nat) as int));
        assert(p * q >= p) by (nonlinear_arith)
            requires
                p > 0,
                q >= 1,
        ;
        vstd::arithmetic::div_mod::lemma_mod_bound(x as int, p);
        if k == 63 {
            lemma2_to64();
        } else {
            let t = (k + 1) as u64;
            vstd::bits::lemma_u64_shr_is_div(x, t);
            lemma_pow2_pos((k + 1) as nat);
            vstd::arithmetic::div_mod::lemma_fundamental_div_mod(
                x as int,
                pow2((k + 1) as nat) as int,
            );
            vstd::arithmetic::div_mod::lemma_mod_bound(x as int, pow2((k + 1) as nat) as int);
            assert(x as int / (pow2((k + 1) as nat) as int) == 0);
            let big = pow2((k + 1) as nat) as int;
            assert(big * 0 == 0);
        }
    }
    k
}

/// The high and the low half of a 128-bit integer.
fn halves(x: u128) -> (r: (u64, u64))
    ensures
        x == r.0 * pow2(64) + r.1,
{
    proof {
        lemma2_to64();
        assert(x == (x >> 64) * 0x1_0000_0000_0000_0000 + (x & 0xffff_ffff_ffff_ffff))
            by (bit_vector);
        assert((x >> 64) as u64 == (x >> 64)) by (bit_vector);
        assert((x & 0xffff_ffff_ffff_ffff) as u64 == (x & 0xffff_ffff_ffff_ffff)) by (bit_vector);
    }
    ((x >> 64) as u64, (x & 0xffff_ffff_ffff_ffff) as u64)
}

/// The number of trailing zero bits.
pub fn trailing_zeros_u128(x: u128) -> (k: u32)
    requires
        x != 0,
    ensures
        k < 128,
        exact_power(x as int, k as nat),
{
    let (high, low) = halves(x);
    let ghost whole = pow2(64) as int;
    if low != 0 {
        let k: u32 = trailing_zeros_u64(low);
        proof {
            lemma_add_multiple(high as int, low as int, k as nat, 64);
            lemma_add_multiple(high as int, low as int, (k + 1) as nat, 64);
        }
        k
    } else {
        let k: u32 = trailing_zeros_u64(high);
        proof {
            lemma_shift_power(high as int, k as nat, 64);
        }
        k + 64
    }
}

/// Adding a multiple of `2^n` does not change the remainder by a smaller power of two.
proof fn lemma_add_multiple(high: int, low: int, k: nat, n: nat)
    requires
        k <= n,
    ensures
        (high * pow2(n) + low) % (pow2(k) as int) == low % (pow2(k) as int),
{
    lemma_pow2_pos(k);
    lemma_pow2_adds(k, (n - k) as nat);
    let (p, r) = (pow2(k) as int, pow2((n - k) as nat) as int);
    assert(high * (p * r) + low == p * (high * r) + low) by (nonlinear_arith);
    vstd::arithmetic::div_mod::lemma_mod_multiples_vanish(high * r, low, p);
}

proof fn lemma_shift_power(high: int, k: nat, n: nat)
    requires
        high >= 0,
        exact_power(high, k),
    ensures
        exact_power(high * pow2(n), k + n),
{
    lemma_pow2_pos(k);
    lemma_pow2_pos(k + 1);
    lemma_pow2_pos(n);
    lemma_pow2_adds(k, n);
    lemma_pow2_adds(k + 1, n);
    let w = pow2(n) as int;
    vstd::arithmetic::div_mod::lemma_truncate_middle(high, w, pow2(k) as int);
    vstd::arithmetic::div_mod::lemma_truncate_middle(high, w, pow2(k + 1) as int);
    let (p, q) = (pow2(k) as int, pow2(k + 1) as int);
    assert(high * w == w * high) by (nonlinear_arith);
    assert(p * w == w * p) by (nonlinear_arith);
    assert(q * w == w * q) by (nonlinear_arith);
    vstd::arithmetic::mul::lemma_mul_nonzero(w, high % q);
    assert(w * (high % p) == 0);
}

/// The position of the highest set bit.
pub fn highest_bit_u128(x: u128) -> (k: u32)
    requires
        x != 0,
    ensures
        k < 128,
        floor_power(x as int, k as nat),
{
    let (high, low) = halves(x);
    if high != 0 {
        let k: u32 = highest_bit_u64(high);
        proof {
            lemma2_to64();
            lemma_pow2_adds(k as nat, 64);
            lemma_pow2_adds((k + 1) as nat, 64);
            let (h, l, w) = (high as int, low as int, pow2(64) as int);
            let (p, q) = (pow2(k as nat) as int, pow2((k + 1) as nat) as int);
            assert(p * w <= h * w + l < q * w) by (nonlinear_arith)
                requires
                    p <= h < q,
                    0 <= l < w,
            ;
        }
        k + 64
    } else {
        highest_bit_u64(low)
    }
}

/// The power of two with this exponent.
pub fn power_u128(k: u32) -> (r: u128)
    requires
        k < 128,
    ensures
        r == pow2(k as nat),
{
    proof {
        lemma_shl_power(k as u128);
    }
    1u128 << k
}

proof fn lemma_shl_power(k: u128)
    requires
        k < 128,
    ensures
        1u128 << k == pow2(k as nat),
    decreases k,
{
    if k == 0 {
        lemma2_to64();
        assert(1u128 << 0u128 == 1u128) by (bit_vector);
    } else {
        let j = (k - 1) as u128;
        lemma_shl_power(j);
        lemma_pow2_unfold(k as nat);
        assert(j < 127 ==> (1u128 << ((j + 1) as u128)) == 2 * (1u128 << j)) by (bit_vector);
        assert(k == (j + 1) as u128);
    }
}

} // verus!
