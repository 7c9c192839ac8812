//! Mathematical groundwork: powers, gcd, lcm, and verified modular
//! exponentiation on `u64`.

use vstd::prelude::*;
use vstd::arithmetic::div_mod::lemma_div_is_ordered_by_denominator;
use vstd::arithmetic::div_mod::lemma_div_multiples_vanish;
use vstd::arithmetic::div_mod::lemma_mul_mod_noop_general;
use vstd::arithmetic::div_mod::lemma_small_mod;
use vstd::arithmetic::mul::lemma_mul_upper_bound;
use vstd::arithmetic::power::lemma_pow1;
use vstd::arithmetic::power::lemma_pow_adds;
use vstd::arithmetic::power::lemma_pow_distributes;
use vstd::arithmetic::power::lemma_pow_increases;
use vstd::arithmetic::power::lemma_pow_mod_noop;
use vstd::arithmetic::power::pow;

verus! {

/// `b` raised to the power `e`, over the natural numbers.
pub open spec fn pow_nat(b: nat, e: nat) -> nat
    decreases e,
{
    if e == 0 {
        1
    } else {
        b * pow_nat(b, (e - 1) as nat)
    }
}

/// Greatest common divisor, by Euclid's recursion; `spec_gcd(a, 0) == a`.
pub open spec fn spec_gcd(a: nat, b: nat) -> nat
    decreases b,
{
    if b == 0 {
        a
    } else {
        spec_gcd(b, a % b)
    }
}

/// Least common multiple.
pub open spec fn spec_lcm(a: nat, b: nat) -> nat {
    (a * b) / spec_gcd(a, b)
}

/// `pow_nat` agrees with vstd's `pow`.
pub proof fn lemma_pow_nat_is_pow(b: nat, e: nat)
    ensures
        pow_nat(b, e) == pow(b as int, e),
    decreases e,
{
    reveal(pow);
    if e > 0 {
        lemma_pow_nat_is_pow(b, (e - 1) as nat);
    }
}

/// A power of a positive base is positive.
pub proof fn lemma_pow_nat_pos(b: nat, e: nat)
    requires
        1 <= b,
    ensures
        1 <= pow_nat(b, e),
    decreases e,
{
    if e > 0 {
        lemma_pow_nat_pos(b, (e - 1) as nat);
        assert(b * pow_nat(b, (e - 1) as nat) >= 1) by (nonlinear_arith)
            requires
                1 <= b,
                1 <= pow_nat(b, (e - 1) as nat),
        ;
    }
}

/// Powers of a positive base grow with the exponent.
pub proof fn lemma_pow_nat_le(b: nat, e1: nat, e2: nat)
    requires
        1 <= b,
        e1 <= e2,
    ensures
        pow_nat(b, e1) <= pow_nat(b, e2),
{
    lemma_pow_nat_is_pow(b, e1);
    lemma_pow_nat_is_pow(b, e2);
    lemma_pow_increases(b, e1, e2);
}

/// The gcd is positive as soon as one argument is.
pub proof fn lemma_gcd_pos(a: nat, b: nat)
    requires
        1 <= a || 1 <= b,
    ensures
        1 <= spec_gcd(a, b),
    decreases b,
{
    if b != 0 {
        lemma_gcd_pos(b, a % b);
    }
}

/// The gcd never exceeds a positive second argument.
pub proof fn lemma_gcd_le(a: nat, b: nat)
    requires
        1 <= b,
    ensures
        spec_gcd(a, b) <= b,
    decreases b,
{
    if a % b == 0 {
        assert(spec_gcd(a, b) == spec_gcd(b, 0));
    } else {
        lemma_gcd_le(b, a % b);
    }
}

/// The lcm of positive numbers lies between each argument and their product.
pub proof fn lemma_lcm_bounds(a: nat, b: nat)
    requires
        1 <= a,
        1 <= b,
    ensures
        a <= spec_lcm(a, b),
        spec_lcm(a, b) <= a * b,
{
    lemma_gcd_pos(a, b);
    lemma_gcd_le(a, b);
    let g = spec_gcd(a, b);
    lemma_div_is_ordered_by_denominator((a * b) as int, 1, g as int);
    lemma_div_is_ordered_by_denominator((a * b) as int, g as int, b as int);
    lemma_div_multiples_vanish(a as int, b as int);
    assert((a * b) as int == (b as int) * (a as int)) by (nonlinear_arith);
}

/// Splitting an exponent in half: `b^e` is `(b*b)^(e/2)`, times `b` when `e` is odd.
pub proof fn lemma_pow_nat_halve(b: nat, e: nat)
    ensures
        e % 2 == 0 ==> pow_nat(b, e) == pow_nat(b * b, e / 2),
        e % 2 == 1 ==> pow_nat(b, e) == b * pow_nat(b * b, e / 2),
{
    let q = e / 2;
    lemma_pow_nat_is_pow(b, e);
    lemma_pow_nat_is_pow(b * b, q);
    lemma_pow_distributes(b as int, b as int, q);
    lemma_pow_adds(b as int, q, q);
    if e % 2 == 1 {
        assert(e == 2 * q + 1);
        lemma_pow_adds(b as int, (2 * q) as nat, 1);
        lemma_pow1(b as int);
        assert(pow(b as int, e) == pow(b as int, (2 * q) as nat) * (b as int));
        assert(pow(b as int, (2 * q) as nat) == pow((b * b) as int, q));
        assert(pow_nat(b, e) == pow_nat(b * b, q) * b);
        assert(pow_nat(b * b, q) * b == b * pow_nat(b * b, q)) by (nonlinear_arith);
    }
}

/// Reducing the base modulo `m` does not change a power modulo `m`.
pub proof fn lemma_pow_nat_mod_noop(b: nat, e: nat, m: nat)
    requires
        1 <= m,
    ensures
        pow_nat(b % m, e) % m == pow_nat(b, e) % m,
{
    lemma_pow_nat_is_pow(b, e);
    lemma_pow_nat_is_pow(b % m, e);
    lemma_pow_mod_noop(b as int, e, m as int);
}

/// The product of `x` and `y` reduced modulo `m`, computed without overflow
/// through a double-width intermediate.
pub fn mul_mod(x: u64, y: u64, m: u64) -> (r: u64)
    requires
        1 <= m,
    ensures
        r == (x as nat * y as nat) % (m as nat),
        r < m,
{
    proof {
        lemma_mul_upper_bound(x as int, u64::MAX as int, y as int, u64::MAX as int);
    }
    let wide: u128 = (x as u128) * (y as u128);
    (wide % (m as u128)) as u64
}

/// `b^e` over `u64`, by repeated multiplication.
pub fn pow_u64(b: u64, e: u32) -> (r: u64)
    requires
        1 <= b,
        pow_nat(b as nat, e as nat) <= u64::MAX,
    ensures
        r == pow_nat(b as nat, e as nat),
{
    let mut i: u32 = 0;
    let mut r: u64 = 1;
    while i < e
        invariant
            i <= e,
            1 <= b,
            r == pow_nat(b as nat, i as nat),
            pow_nat(b as nat, e as nat) <= u64::MAX,
        decreases e - i,
    {
        proof {
            lemma_pow_nat_le(b as nat, (i + 1) as nat, e as nat);
            assert(pow_nat(b as nat, (i + 1) as nat) == b * pow_nat(b as nat, i as nat));
        }
        r = r * b;
        i = i + 1;
    }
    r
}

/// `a^e mod m`, by square and multiply.
pub fn pow_mod(a: u64, e: u64, m: u64) -> (r: u64)
    requires
        2 <= m,
    ensures
        r == pow_nat(a as nat, e as nat) % (m as nat),
        r < m,
{
    let mut base: u64 = a % m;
    let mut exp: u64 = e;
    let mut result: u64 = 1;
    proof {
        lemma_pow_nat_mod_noop(a as nat, e as nat, m as nat);
        lemma_small_mod(1, m as nat);
        assert(1 * pow_nat(base as nat, exp as nat) == pow_nat(base as nat, exp as nat));
    }
    while exp > 0
        invariant
            2 <= m,
            base < m,
            result < m,
            (result as nat * pow_nat(base as nat, exp as nat)) % (m as nat)
                == pow_nat(a as nat, e as nat) % (m as nat),
        decreases exp,
    {
        let ghost r0 = result as nat;
        let ghost b0 = base as nat;
        let ghost e0 = exp as nat;
        let ghost mm = m as nat;
        let ghost q = e0 / 2;
        let ghost pq = pow_nat(b0 * b0, q);
        proof {
            lemma_pow_nat_halve(b0, e0);
            lemma_pow_nat_mod_noop(b0 * b0, q, mm);
        }
        if exp % 2 == 1 {
            result = mul_mod(result, base, m);
            proof {
                // (r0 * b0) % m carries the factor b0 split off the odd power.
                lemma_mul_mod_noop_general((r0 * b0) as int, pow_nat(((b0 * b0) % mm), q) as int, mm as int);
                lemma_mul_mod_noop_general((r0 * b0) as int, pq as int, mm as int);
                assert((r0 * b0) * pq == r0 * (b0 * pq)) by (nonlinear_arith);
            }
        } else {
            proof {
                lemma_mul_mod_noop_general(r0 as int, pow_nat(((b0 * b0) % mm), q) as int, mm as int);
                lemma_mul_mod_noop_general(r0 as int, pq as int, mm as int);
            }
        }
        base = mul_mod(base, base, m);
        exp = exp / 2;
    }
    proof {
        assert(pow_nat(base as nat, 0) == 1);
        assert(result as nat * pow_nat(base as nat, 0) == result as nat);
        lemma_small_mod(result as nat, m as nat);
    }
    result
}

} // verus!
