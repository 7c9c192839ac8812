//! The analyzer for one modulus: its unit group's exponent (the Carmichael
//! function) and the test for elements of maximal multiplicative order.

use vstd::prelude::*;
use crate::arith::lemma_lcm_bounds;
use crate::arith::lemma_pow_nat_le;
use crate::arith::lemma_pow_nat_pos;
use crate::arith::pow_mod;
use crate::arith::pow_nat;
use crate::arith::pow_u64;
use crate::arith::spec_gcd;
use crate::arith::spec_lcm;
use crate::factor::factor_u64;
use crate::factor::gcd_u64;
use crate::factor::lemma_factor_divides_prefix;
use crate::factor::is_factorization;
use crate::factor::is_prime;
use crate::factor::lcm_u64;
use crate::factor::lemma_prime_power_le_product;
use crate::factor::lemma_product_prefix_mono;
use crate::factor::product_prefix;
use vstd::arithmetic::div_mod::lemma_fundamental_div_mod;
use vstd::arithmetic::div_mod::lemma_small_mod;
use vstd::arithmetic::mul::lemma_mul_upper_bound;

verus! {

/// Why an analyzer could not be built.
#[derive(Debug, PartialEq, Eq, Structural)]
pub enum RingError {
    /// The modulus is below 2.
    InvalidModulus,
}

/// The exponent of the unit group mod `p^k` for a prime power: `2^(k-2)`
/// for `p == 2, k > 2` (that group is Z/2 x Z/2^(k-2)), and the totient
/// `(p-1) * p^(k-1)` otherwise.
pub open spec fn prime_power_exponent(f: (u64, u32)) -> nat {
    if f.0 == 2 && f.1 > 2 {
        pow_nat(2, (f.1 - 2) as nat)
    } else {
        ((f.0 - 1) as nat) * pow_nat(f.0 as nat, (f.1 - 1) as nat)
    }
}

/// The lcm of `prime_power_exponent` over the first `i` entries of `fs`,
/// starting from 1.
pub open spec fn exponent_prefix(fs: Seq<(u64, u32)>, i: int) -> nat
    decreases i,
{
    if i <= 0 {
        1
    } else {
        spec_lcm(exponent_prefix(fs, i - 1), prime_power_exponent(fs[i - 1]))
    }
}

/// The Carmichael exponent that a factorization of the modulus determines.
pub open spec fn carmichael_from(fs: Seq<(u64, u32)>) -> nat {
    exponent_prefix(fs, fs.len() as int)
}

/// The exponent of one prime power lies between 1 and the prime power itself.
pub proof fn lemma_prime_power_exponent_bounds(f: (u64, u32))
    requires
        2 <= f.0,
        1 <= f.1,
    ensures
        1 <= prime_power_exponent(f),
        prime_power_exponent(f) <= pow_nat(f.0 as nat, f.1 as nat),
{
    let p = f.0 as nat;
    let k = f.1 as nat;
    if f.0 == 2 && f.1 > 2 {
        lemma_pow_nat_pos(2, (k - 2) as nat);
        lemma_pow_nat_le(2, (k - 2) as nat, k);
    } else {
        lemma_pow_nat_pos(p, (k - 1) as nat);
        assert(1 <= ((p - 1) as nat) * pow_nat(p, (k - 1) as nat)) by (nonlinear_arith)
            requires
                2 <= p,
                1 <= pow_nat(p, (k - 1) as nat),
        ;
        assert(pow_nat(p, k) == p * pow_nat(p, (k - 1) as nat));
        assert(((p - 1) as nat) * pow_nat(p, (k - 1) as nat) <= p * pow_nat(p, (k - 1) as nat))
            by (nonlinear_arith)
            requires
                2 <= p,
                0 <= pow_nat(p, (k - 1) as nat),
        ;
    }
}

/// An analyzer bound to one modulus `m`: the exponent of the unit group
/// mod `m` and that exponent's own prime factorization, against which
/// candidates are tested.
pub struct ModularRing {
    /// The modulus.
    pub m: u64,
    /// The exponent of the unit group mod `m` (the Carmichael function of `m`):
    /// the least `e` with `a^e == 1 (mod m)` for every unit `a`.
    pub exponent: u64,
    /// The prime factorization of `exponent`.
    pub exp_factors: Vec<(u64, u32)>,
    /// The prime factorization of `m` it was all derived from.
    pub factors_of_m: Ghost<Seq<(u64, u32)>>,
}

impl ModularRing {
    /// The analyzer's invariant: `exponent` is the lcm, over the prime-power
    /// factors of `m`, of the exponents of the unit groups mod those prime
    /// powers, and `exp_factors` factors it.
    pub open spec fn wf(self) -> bool {
        &&& 2 <= self.m
        &&& is_factorization(self.m as nat, self.factors_of_m@)
        &&& self.exponent as nat == carmichael_from(self.factors_of_m@)
        &&& 1 <= self.exponent
        &&& is_factorization(self.exponent as nat, self.exp_factors@)
    }

    /// `a` has maximal multiplicative order mod `m`: it is a unit, and no
    /// proper divisor `exponent / p` of the exponent already takes it to 1.
    pub open spec fn spec_has_max_order(self, a: nat) -> bool {
        &&& spec_gcd(a, self.m as nat) == 1
        &&& forall|i: int|
            0 <= i < self.exp_factors@.len()
                ==> pow_nat(a, (self.exponent as nat) / ((#[trigger] self.exp_factors@[i]).0 as nat))
                    % (self.m as nat) != 1
    }

    /// Builds the analyzer for modulus `m`: factors `m`, folds the per-factor
    /// unit-group exponents into their lcm, and factors that exponent.
    pub fn new(m: u64) -> (r: Result<ModularRing, RingError>)
        ensures
            match r {
                Ok(ring) => 2 <= m && ring.m == m && ring.wf(),
                Err(e) => m < 2 && e == RingError::InvalidModulus,
            },
    {
        if m < 2 {
            return Err(RingError::InvalidModulus);
        }
        let factors = factor_u64(m);
        let ghost fs = factors@;
        let n = factors.len();
        let mut exponent: u64 = 1;
        let mut i: usize = 0;
        proof {
            assert(forall|l: int| 0 <= l < fs.len() ==> 1 <= (#[trigger] fs[l]).0);
        }
        while i < n
            invariant
                2 <= m,
                is_factorization(m as nat, fs),
                factors@ == fs,
                n == fs.len(),
                i <= n,
                exponent as nat == exponent_prefix(fs, i as int),
                1 <= exponent,
                exponent as nat <= product_prefix(fs, i as int),
                forall|l: int| 0 <= l < fs.len() ==> 1 <= (#[trigger] fs[l]).0,
            decreases n - i,
        {
            let p = factors[i].0;
            let k = factors[i].1;
            proof {
                assert(is_prime(fs[i as int].0 as nat) && 1 <= fs[i as int].1);
                lemma_prime_power_exponent_bounds((p, k));
                lemma_prime_power_le_product(fs, i as int);
                lemma_pow_nat_le(p as nat, (k - 1) as nat, k as nat);
                lemma_pow_nat_pos(p as nat, (k - 1) as nat);
                if p == 2 && k > 2 {
                    lemma_pow_nat_le(2, (k - 2) as nat, k as nat);
                }
            }
            let part: u64 = if p == 2 && k > 2 {
                pow_u64(2, k - 2)
            } else {
                (p - 1) * pow_u64(p, k - 1)
            };
            proof {
                assert(part as nat == prime_power_exponent(fs[i as int]));
                lemma_lcm_bounds(exponent as nat, part as nat);
                lemma_mul_upper_bound(
                    exponent as int,
                    product_prefix(fs, i as int) as int,
                    part as int,
                    pow_nat(fs[i as int].0 as nat, fs[i as int].1 as nat) as int,
                );
                assert(product_prefix(fs, i + 1)
                    == product_prefix(fs, i as int)
                        * pow_nat(fs[i as int].0 as nat, fs[i as int].1 as nat));
                lemma_product_prefix_mono(fs, i + 1, fs.len() as int);
            }
            exponent = lcm_u64(exponent, part);
            i = i + 1;
        }
        let exp_factors = factor_u64(exponent);
        Ok(ModularRing { m, exponent, exp_factors, factors_of_m: Ghost(fs) })
    }

    /// Tests whether `a` (reduced mod `m`) has maximal multiplicative order:
    /// `a` must be a unit, and `a^(exponent/p)` must differ from 1 mod `m`
    /// for every prime `p` dividing the exponent.
    pub fn has_max_order(&self, a: u64) -> (r: bool)
        requires
            self.wf(),
        ensures
            r == self.spec_has_max_order(a as nat),
    {
        let g = gcd_u64(a, self.m);
        if g != 1 {
            return false;
        }
        let n = self.exp_factors.len();
        let mut i: usize = 0;
        while i < n
            invariant
                self.wf(),
                n == self.exp_factors@.len(),
                i <= n,
                spec_gcd(a as nat, self.m as nat) == 1,
                forall|j: int|
                    0 <= j < i
                        ==> pow_nat(
                            a as nat,
                            (self.exponent as nat) / ((#[trigger] self.exp_factors@[j]).0 as nat),
                        ) % (self.m as nat) != 1,
            decreases n - i,
        {
            let p = self.exp_factors[i].0;
            proof {
                assert(is_prime(self.exp_factors@[i as int].0 as nat));
            }
            let q = self.exponent / p;
            if pow_mod(a, q, self.m) == 1 {
                return false;
            }
            i = i + 1;
        }
        true
    }
}

/// An integer that is not a unit mod `m` never has maximal order: the test
/// rejects every `a` whose gcd with the modulus is not 1.
pub proof fn lemma_non_unit_rejected(ring: ModularRing, a: nat)
    requires
        spec_gcd(a, ring.m as nat) != 1,
    ensures
        !ring.spec_has_max_order(a),
{
}

/// `e` is the multiplicative order of `a` mod `m`: the least positive
/// exponent taking `a` to 1.
pub open spec fn is_order(a: nat, m: nat, e: nat) -> bool {
    &&& 1 <= e
    &&& pow_nat(a, e) % m == 1nat % m
    &&& forall|d: nat| 1 <= d < e ==> #[trigger] pow_nat(a, d) % m != 1nat % m
}

/// A unit whose true multiplicative order is the analyzer's exponent passes
/// the maximal-order test: for every prime `p` of the exponent, `exponent/p`
/// is a positive exponent below the order, so it cannot take `a` to 1.
pub proof fn lemma_true_order_accepted(ring: ModularRing, a: nat)
    requires
        ring.wf(),
        spec_gcd(a, ring.m as nat) == 1,
        is_order(a, ring.m as nat, ring.exponent as nat),
    ensures
        ring.spec_has_max_order(a),
{
    let m = ring.m as nat;
    let lam = ring.exponent as nat;
    lemma_small_mod(1, m);
    assert forall|i: int| 0 <= i < ring.exp_factors@.len() implies pow_nat(
        a,
        lam / ((#[trigger] ring.exp_factors@[i]).0 as nat),
    ) % m != 1 by {
        let p = ring.exp_factors@[i].0 as nat;
        assert(is_prime(ring.exp_factors@[i].0 as nat) && 1 <= ring.exp_factors@[i].1);
        lemma_factor_divides_prefix(ring.exp_factors@, i, ring.exp_factors@.len() as int);
        lemma_fundamental_div_mod(lam as int, p as int);
        let q = lam / p;
        assert(lam == p * q);
        assert(1 <= q) by (nonlinear_arith)
            requires
                lam == p * q,
                1 <= lam,
        ;
        assert(q < lam) by (nonlinear_arith)
            requires
                lam == p * q,
                2 <= p,
                1 <= q,
        ;
        assert(pow_nat(a, q) % m != 1nat % m);
    };
}

} // verus!
