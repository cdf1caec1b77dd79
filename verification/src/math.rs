//! Integer arithmetic underlying the pool operations.
//!
//! This module holds the integer square root used to mint bootstrap
//! liquidity, the constant-product output formula used by swaps, and the
//! arithmetic lemmas behind the engine's ratio- and k-preservation
//! guarantees.

use vstd::prelude::*;
use vstd::arithmetic::div_mod::lemma_div_by_multiple;
use vstd::arithmetic::div_mod::lemma_div_decreases;
use vstd::arithmetic::div_mod::lemma_div_is_ordered;
use vstd::arithmetic::div_mod::lemma_div_pos_is_pos;
use vstd::arithmetic::div_mod::lemma_fundamental_div_mod;
use vstd::arithmetic::div_mod::lemma_hoist_over_denominator;
use vstd::arithmetic::div_mod::lemma_multiply_divide_lt;
use vstd::arithmetic::mul::lemma_mul_inequality;
use vstd::arithmetic::mul::lemma_mul_is_commutative;
use vstd::arithmetic::mul::lemma_mul_nonnegative;

verus! {

/// Fee quotations are in basis points: a fee of `n` keeps `(10000 - n) / 10000`
/// of the input amount in the exchange calculation.
pub const FEE_DENOMINATOR: u64 = 10000;

/// `r` is the floor of the square root of `x`.
pub open spec fn is_integer_sqrt(x: int, r: int) -> bool {
    0 <= r && r * r <= x && x < (r + 1) * (r + 1)
}

/// The floor of the square root is unique.
pub proof fn lemma_integer_sqrt_unique(x: int, r1: int, r2: int)
    requires
        is_integer_sqrt(x, r1),
        is_integer_sqrt(x, r2),
    ensures
        r1 == r2,
{
    assert(r1 == r2) by (nonlinear_arith)
        requires
            0 <= r1,
            r1 * r1 <= x,
            x < (r1 + 1) * (r1 + 1),
            0 <= r2,
            r2 * r2 <= x,
            x < (r2 + 1) * (r2 + 1),
    ;
}

/// Every nonnegative integer has a floor square root.
pub proof fn lemma_integer_sqrt_exists(x: int) -> (s: int)
    requires
        0 <= x,
    ensures
        is_integer_sqrt(x, s),
    decreases x,
{
    if x == 0 {
        assert(is_integer_sqrt(0, 0));
        0
    } else {
        let s0 = lemma_integer_sqrt_exists(x - 1);
        if x < (s0 + 1) * (s0 + 1) {
            assert(is_integer_sqrt(x, s0));
            s0
        } else {
            assert((s0 + 1) * (s0 + 1) == x);
            assert(x < (s0 + 2) * (s0 + 2)) by (nonlinear_arith)
                requires
                    (s0 + 1) * (s0 + 1) == x,
                    0 <= s0,
            ;
            s0 + 1
        }
    }
}

/// The floor of the square root of `x`, as a total function.
pub open spec fn spec_sqrt(x: int) -> int {
    choose|r: int| is_integer_sqrt(x, r)
}

/// [`spec_sqrt`] satisfies its characterization on nonnegative arguments.
pub proof fn lemma_spec_sqrt(x: int)
    requires
        0 <= x,
    ensures
        is_integer_sqrt(x, spec_sqrt(x)),
{
    let s = lemma_integer_sqrt_exists(x);
    assert(is_integer_sqrt(x, s));
}

/// One Newton/Babylonian step at `u` stays at or above the true root and
/// strictly decreases, so the iteration below converges to the floor root.
proof fn lemma_newton_step(x: int, u: int, d: int, n: int)
    requires
        2 <= x,
        1 <= u,
        d == x / u,
        d < u,
        n == d + (u - d) / 2,
    ensures
        1 <= n < u,
        x < (n + 1) * (n + 1),
{
    let s = lemma_integer_sqrt_exists(x);
    assert(1 <= s) by (nonlinear_arith)
        requires
            0 <= s,
            2 <= x,
            x < (s + 1) * (s + 1),
    ;
    // d >= 2s - u, because x >= s*s >= u*(2s - u)
    if 2 * s - u >= 0 {
        assert(u * (2 * s - u) <= s * s) by (nonlinear_arith);
        lemma_div_is_ordered(u * (2 * s - u), x, u);
        lemma_div_by_multiple(2 * s - u, u);
        lemma_mul_is_commutative(u, 2 * s - u);
        assert(d >= 2 * s - u);
    } else {
        lemma_div_pos_is_pos(x, u);
        assert(d >= 2 * s - u);
    }
    // n == (u + d) / 2 >= s
    lemma_hoist_over_denominator(u - d, d, 2nat);
    assert(n == (u + d) / 2);
    lemma_div_is_ordered(2 * s, u + d, 2);
    lemma_div_by_multiple(s, 2);
    lemma_mul_is_commutative(s, 2);
    assert(n >= s);
    assert(x < (n + 1) * (n + 1)) by (nonlinear_arith)
        requires
            n >= s,
            0 <= s,
            x < (s + 1) * (s + 1),
    ;
    // n < u, since (u - d) / 2 < u - d
    lemma_div_decreases(u - d, 2);
}

/// Floor square root of an unsigned 128-bit integer, by Newton/Babylonian
/// iteration from an initial estimate at or above the root; `0` maps to `0`.
pub fn integer_sqrt(x: u128) -> (r: u128)
    ensures
        is_integer_sqrt(x as int, r as int),
        r as int == spec_sqrt(x as int),
{
    if x == 0 {
        assert(is_integer_sqrt(0, 0));
        proof {
            lemma_spec_sqrt(x as int);
            lemma_integer_sqrt_unique(x as int, 0, spec_sqrt(x as int));
        }
        return 0;
    }
    if x == 1 {
        assert(is_integer_sqrt(1, 1));
        proof {
            lemma_spec_sqrt(x as int);
            lemma_integer_sqrt_unique(x as int, 1, spec_sqrt(x as int));
        }
        return 1;
    }
    let mut xk: u128 = x / 2 + 1;
    proof {
        lemma_fundamental_div_mod(x as int, 2);
        assert((xk + 1) * (xk + 1) > x) by (nonlinear_arith)
            requires
                2 <= x,
                x as int == 2 * ((x as int) / 2) + (x as int) % 2,
                0 <= (x as int) % 2 < 2,
                xk == (x as int) / 2 + 1,
        ;
    }
    loop
        invariant
            2 <= x,
            1 <= xk,
            (x as int) < (xk as int + 1) * (xk as int + 1),
        decreases xk,
    {
        let q = x / xk;
        if q >= xk {
            proof {
                lemma_fundamental_div_mod(x as int, xk as int);
                assert((xk as int) * (xk as int) <= x as int) by (nonlinear_arith)
                    requires
                        x as int == (xk as int) * ((x as int) / (xk as int)) + (x as int) % (
                        xk as int),
                        0 <= (x as int) % (xk as int),
                        (x as int) / (xk as int) >= xk as int,
                        1 <= xk as int,
                ;
                lemma_spec_sqrt(x as int);
                lemma_integer_sqrt_unique(x as int, xk as int, spec_sqrt(x as int));
            }
            return xk;
        }
        let next = q + (xk - q) / 2;
        proof {
            lemma_newton_step(x as int, xk as int, q as int, next as int);
        }
        xk = next;
    }
}

/// The amount of the output token a swap pays out: the input is reduced by
/// the configured basis-point fee, then priced by the constant-product rule,
/// rounding down.
pub open spec fn spec_swap_output(
    reserve_in: int,
    reserve_out: int,
    amount_in: int,
    fee_bps: int,
) -> int {
    let with_fee = amount_in * (10000 - fee_bps);
    (with_fee * reserve_out) / (reserve_in * 10000 + with_fee)
}

/// The swap output is well defined, never pays out the whole output reserve,
/// and never decreases the product of the reserves: the constant-product
/// value `k` is preserved or grows under rounding, for any configured fee.
pub proof fn lemma_swap_output_bounds(
    reserve_in: int,
    reserve_out: int,
    amount_in: int,
    fee_bps: int,
)
    requires
        1 <= reserve_in,
        1 <= reserve_out,
        0 <= amount_in,
        0 <= fee_bps <= 10000,
    ensures
        0 <= spec_swap_output(reserve_in, reserve_out, amount_in, fee_bps) < reserve_out,
        (reserve_in + amount_in) * (reserve_out - spec_swap_output(
            reserve_in,
            reserve_out,
            amount_in,
            fee_bps,
        )) >= reserve_in * reserve_out,
{
    let w = amount_in * (10000 - fee_bps);
    let den = reserve_in * 10000 + w;
    let out = (w * reserve_out) / den;
    lemma_mul_nonnegative(amount_in, 10000 - fee_bps);
    assert(10000 <= reserve_in * 10000) by (nonlinear_arith)
        requires
            1 <= reserve_in,
    ;
    lemma_mul_nonnegative(w, reserve_out);
    lemma_div_pos_is_pos(w * reserve_out, den);
    assert(w * reserve_out < den * reserve_out) by (nonlinear_arith)
        requires
            0 <= w,
            1 <= reserve_out,
            w < den,
    ;
    lemma_multiply_divide_lt(w * reserve_out, den, reserve_out);
    lemma_fundamental_div_mod(w * reserve_out, den);
    assert(out * den <= w * reserve_out);
    assert(w * (reserve_in + amount_in) <= amount_in * den) by (nonlinear_arith)
        requires
            w == amount_in * (10000 - fee_bps),
            den == reserve_in * 10000 + w,
            0 <= amount_in,
            0 <= fee_bps <= 10000,
            1 <= reserve_in,
    ;
    assert(out * (reserve_in + amount_in) <= amount_in * reserve_out) by (nonlinear_arith)
        requires
            out * den <= w * reserve_out,
            w * (reserve_in + amount_in) <= amount_in * den,
            1 <= den,
            0 <= w,
            0 <= out,
            0 <= reserve_out,
            0 <= reserve_in + amount_in,
    ;
    assert((reserve_in + amount_in) * (reserve_out - out) >= reserve_in * reserve_out)
        by (nonlinear_arith)
        requires
            out * (reserve_in + amount_in) <= amount_in * reserve_out,
    ;
}

/// With no fee the output formula reduces to the plain constant-product
/// quotient `amount_in * reserve_out / (reserve_in + amount_in)`.
pub proof fn lemma_swap_output_no_fee(reserve_in: int, reserve_out: int, amount_in: int)
    requires
        1 <= reserve_in,
        0 <= reserve_out,
        0 <= amount_in,
    ensures
        spec_swap_output(reserve_in, reserve_out, amount_in, 0) == (amount_in * reserve_out) / (
        reserve_in + amount_in),
{
    let w = amount_in * 10000;
    assert(w * reserve_out == (amount_in * reserve_out) * 10000) by (nonlinear_arith)
        requires
            w == amount_in * 10000,
    ;
    assert(reserve_in * 10000 + w == (reserve_in + amount_in) * 10000) by (nonlinear_arith)
        requires
            w == amount_in * 10000,
    ;
    lemma_mul_nonnegative(amount_in, reserve_out);
    vstd::arithmetic::div_mod::lemma_div_denominator(
        (amount_in * reserve_out) * 10000,
        10000,
        reserve_in + amount_in,
    );
    lemma_div_by_multiple(amount_in * reserve_out, 10000);
    lemma_mul_is_commutative(10000, reserve_in + amount_in);
}

/// With no fee and an exactly dividing trade, `k` is exactly preserved.
pub proof fn lemma_swap_k_exact_no_fee(reserve_in: int, reserve_out: int, amount_in: int)
    requires
        1 <= reserve_in,
        1 <= reserve_out,
        0 <= amount_in,
        (amount_in * reserve_out) % (reserve_in + amount_in) == 0,
    ensures
        (reserve_in + amount_in) * (reserve_out - spec_swap_output(
            reserve_in,
            reserve_out,
            amount_in,
            0,
        )) == reserve_in * reserve_out,
{
    lemma_swap_output_no_fee(reserve_in, reserve_out, amount_in);
    let out = (amount_in * reserve_out) / (reserve_in + amount_in);
    lemma_fundamental_div_mod(amount_in * reserve_out, reserve_in + amount_in);
    assert((reserve_in + amount_in) * out == amount_in * reserve_out);
    assert((reserve_in + amount_in) * (reserve_out - out) == reserve_in * reserve_out)
        by (nonlinear_arith)
        requires
            (reserve_in + amount_in) * out == amount_in * reserve_out,
    ;
}

/// Depositing amounts in the pool's exact reserve ratio leaves the ratio of
/// the increased reserves unchanged.
pub proof fn lemma_ratio_preserved(ra: int, rb: int, da: int, db: int)
    requires
        da * rb == db * ra,
    ensures
        (ra + da) * rb == (rb + db) * ra,
{
    assert((ra + da) * rb == (rb + db) * ra) by (nonlinear_arith)
        requires
            da * rb == db * ra,
    ;
}

/// A proportional withdrawal of `l` of `t` outstanding shares never pays out
/// more than the reserve it draws from.
pub proof fn lemma_share_le_reserve(l: int, r: int, t: int)
    requires
        0 <= l <= t,
        1 <= t,
        0 <= r,
    ensures
        0 <= (l * r) / t <= r,
{
    lemma_mul_nonnegative(l, r);
    lemma_div_pos_is_pos(l * r, t);
    lemma_mul_inequality(l, t, r);
    lemma_div_is_ordered(l * r, t * r, t);
    lemma_mul_is_commutative(t, r);
    lemma_div_by_multiple(r, t);
}

/// A proportional withdrawal of strictly fewer than all outstanding shares
/// leaves part of a positive reserve behind.
pub proof fn lemma_share_lt_reserve(l: int, r: int, t: int)
    requires
        0 <= l < t,
        1 <= r,
    ensures
        (l * r) / t < r,
{
    assert(l * r < t * r) by (nonlinear_arith)
        requires
            0 <= l < t,
            1 <= r,
    ;
    lemma_multiply_divide_lt(l * r, t, r);
}

} // verus!
