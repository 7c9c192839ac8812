//! Prime factorizations, and the calls into the number-theory crates that
//! produce them: factoring, gcd and lcm on `u64`.

use vstd::prelude::*;
use crate::arith::lemma_pow_nat_pos;
use crate::arith::pow_nat;
use crate::arith::spec_gcd;
use crate::arith::spec_lcm;
use vstd::arithmetic::div_mod::lemma_fundamental_div_mod;
use vstd::arithmetic::div_mod::lemma_mod_multiples_basic;

verus! {

/// `p` is a prime: at least 2 and with no divisor strictly between 1 and itself.
pub open spec fn is_prime(p: nat) -> bool {
    &&& 2 <= p
    &&& forall|d: nat| 2 <= d < p ==> #[trigger] (p % d) != 0
}

/// The product of `p^k` over the first `i` entries of `fs`.
pub open spec fn product_prefix(fs: Seq<(u64, u32)>, i: int) -> nat
    decreases i,
{
    if i <= 0 {
        1
    } else {
        product_prefix(fs, i - 1) * pow_nat(fs[i - 1].0 as nat, fs[i - 1].1 as nat)
    }
}

/// `fs` is the prime factorization of `n`: distinct primes in increasing
/// order, each with a positive multiplicity, whose prime powers multiply to `n`.
pub open spec fn is_factorization(n: nat, fs: Seq<(u64, u32)>) -> bool {
    &&& forall|i: int|
        0 <= i < fs.len() ==> is_prime((#[trigger] fs[i]).0 as nat) && 1 <= fs[i].1
    &&& forall|i: int, j: int| 0 <= i < j < fs.len() ==> fs[i].0 < fs[j].0
    &&& product_prefix(fs, fs.len() as int) == n
}

/// The product over a prefix is positive when every base is.
pub proof fn lemma_product_prefix_pos(fs: Seq<(u64, u32)>, i: int)
    requires
        0 <= i <= fs.len(),
        forall|j: int| 0 <= j < fs.len() ==> 1 <= (#[trigger] fs[j]).0,
    ensures
        1 <= product_prefix(fs, i),
    decreases i,
{
    if i > 0 {
        lemma_product_prefix_pos(fs, i - 1);
        lemma_pow_nat_pos(fs[i - 1].0 as nat, fs[i - 1].1 as nat);
        assert(product_prefix(fs, i - 1) * pow_nat(fs[i - 1].0 as nat, fs[i - 1].1 as nat) >= 1)
            by (nonlinear_arith)
            requires
                1 <= product_prefix(fs, i - 1),
                1 <= pow_nat(fs[i - 1].0 as nat, fs[i - 1].1 as nat),
        ;
    }
}

/// The product over a prefix grows as the prefix does.
pub proof fn lemma_product_prefix_mono(fs: Seq<(u64, u32)>, i: int, j: int)
    requires
        0 <= i <= j <= fs.len(),
        forall|l: int| 0 <= l < fs.len() ==> 1 <= (#[trigger] fs[l]).0,
    ensures
        product_prefix(fs, i) <= product_prefix(fs, j),
    decreases j - i,
{
    if i < j {
        lemma_product_prefix_mono(fs, i, j - 1);
        lemma_pow_nat_pos(fs[j - 1].0 as nat, fs[j - 1].1 as nat);
        assert(product_prefix(fs, j - 1)
            <= product_prefix(fs, j - 1) * pow_nat(fs[j - 1].0 as nat, fs[j - 1].1 as nat))
            by (nonlinear_arith)
            requires
                1 <= pow_nat(fs[j - 1].0 as nat, fs[j - 1].1 as nat),
                0 <= product_prefix(fs, j - 1),
        ;
    }
}

/// Each prime power of a factorization is bounded by the full product.
pub proof fn lemma_prime_power_le_product(fs: Seq<(u64, u32)>, i: int)
    requires
        0 <= i < fs.len(),
        forall|l: int| 0 <= l < fs.len() ==> 1 <= (#[trigger] fs[l]).0,
    ensures
        pow_nat(fs[i].0 as nat, fs[i].1 as nat) <= product_prefix(fs, fs.len() as int),
{
    lemma_product_prefix_pos(fs, i);
    assert(pow_nat(fs[i].0 as nat, fs[i].1 as nat)
        <= product_prefix(fs, i) * pow_nat(fs[i].0 as nat, fs[i].1 as nat))
        by (nonlinear_arith)
        requires
            1 <= product_prefix(fs, i),
            0 <= pow_nat(fs[i].0 as nat, fs[i].1 as nat),
    ;
    assert(product_prefix(fs, i + 1)
        == product_prefix(fs, i) * pow_nat(fs[i].0 as nat, fs[i].1 as nat));
    lemma_product_prefix_mono(fs, i + 1, fs.len() as int);
}

/// `d` divides `n`.
pub open spec fn divides(d: nat, n: nat) -> bool {
    n % d == 0
}

/// A prime of a factorization divides every prefix product that includes it.
pub proof fn lemma_factor_divides_prefix(fs: Seq<(u64, u32)>, i: int, j: int)
    requires
        0 <= i < j <= fs.len(),
        2 <= fs[i].0,
        1 <= fs[i].1,
    ensures
        divides(fs[i].0 as nat, product_prefix(fs, j)),
    decreases j,
{
    let p = fs[i].0 as nat;
    let w: nat;
    if j == i + 1 {
        let k = fs[i].1 as nat;
        assert(pow_nat(p, k) == p * pow_nat(p, (k - 1) as nat));
        w = product_prefix(fs, i) * pow_nat(p, (k - 1) as nat);
        assert(product_prefix(fs, j) == w * p) by (nonlinear_arith)
            requires
                product_prefix(fs, j) == product_prefix(fs, i) * pow_nat(p, k),
                pow_nat(p, k) == p * pow_nat(p, (k - 1) as nat),
                w == product_prefix(fs, i) * pow_nat(p, (k - 1) as nat),
        ;
    } else {
        lemma_factor_divides_prefix(fs, i, j - 1);
        lemma_fundamental_div_mod(product_prefix(fs, j - 1) as int, p as int);
        let q = product_prefix(fs, j - 1) / p;
        let last = pow_nat(fs[j - 1].0 as nat, fs[j - 1].1 as nat);
        w = q * last;
        assert(product_prefix(fs, j) == w * p) by (nonlinear_arith)
            requires
                product_prefix(fs, j) == product_prefix(fs, j - 1) * last,
                product_prefix(fs, j - 1) == p * q,
                w == q * last,
        ;
    }
    lemma_mod_multiples_basic(w as int, p as int);
}

/// Relies on `num_prime::nt_funcs::factorize64`: the complete prime
/// factorization of a positive `u64`, as a map keyed by prime; a `BTreeMap`
/// iterates its keys in increasing order.
#[verifier::external_body]
pub(crate) fn factor_u64(n: u64) -> (r: Vec<(u64, u32)>)
    requires
        1 <= n,
    ensures
        is_factorization(n as nat, r@),
{
    num_prime::nt_funcs::factorize64(n)
        .into_iter()
        .map(|(p, k)| (p, k as u32))
        .collect()
}

/// Relies on `num_integer::gcd` (Stein's binary algorithm): the greatest
/// common divisor, with `gcd(a, 0) == a`.
#[verifier::external_body]
pub(crate) fn gcd_u64(a: u64, b: u64) -> (r: u64)
    ensures
        r == spec_gcd(a as nat, b as nat),
{
    num_integer::gcd(a, b)
}

/// Relies on `num_integer::lcm`, which computes `a * (b / gcd(a, b))`: the
/// least common multiple, exact whenever the mathematical lcm fits in `u64`.
#[verifier::external_body]
pub(crate) fn lcm_u64(a: u64, b: u64) -> (r: u64)
    requires
        1 <= a,
        1 <= b,
        spec_lcm(a as nat, b as nat) <= u64::MAX,
    ensures
        r == spec_lcm(a as nat, b as nat),
{
    num_integer::lcm(a, b)
}

} // verus!
