//! Every nonzero residue has the power `Q - 2` as its inverse: Fermat's
//! little theorem for the prime 3329, by way of the binomial theorem.

use vstd::prelude::*;
use vstd::arithmetic::power::pow;
use vstd::arithmetic::power::lemma_pow0;
use vstd::arithmetic::power::lemma_pow1;
use vstd::arithmetic::power::lemma_pow_adds;
use vstd::arithmetic::div_mod::lemma_fundamental_div_mod;
use vstd::arithmetic::div_mod::lemma_mod_bound;
use vstd::arithmetic::div_mod::lemma_mod_multiples_vanish;
use vstd::arithmetic::div_mod::lemma_mul_mod_noop_general;
use vstd::arithmetic::div_mod::lemma_add_mod_noop;
use vstd::arithmetic::div_mod::lemma_small_mod;
use crate::field::fmul;
use crate::field::fpow;

verus! {

/// The binomial coefficient: the number of ways to choose `k` of `n` things.
pub open spec fn binomial(n: nat, k: nat) -> int
    decreases n,
{
    if k == 0 {
        1
    } else if n == 0 {
        0
    } else {
        binomial((n - 1) as nat, (k - 1) as nat) + binomial((n - 1) as nat, k)
    }
}

/// The sum of the first `m` terms of the expansion of `(a + 1)^n`.
pub open spec fn binomial_sum(a: int, n: nat, m: nat) -> int
    decreases m,
{
    if m == 0 {
        0
    } else {
        binomial_sum(a, n, (m - 1) as nat) + binomial(n, (m - 1) as nat) * pow(a, (m - 1) as nat)
    }
}

/// There is no way to choose more than there is.
pub proof fn lemma_binomial_beyond(n: nat, k: nat)
    requires
        k > n,
    ensures
        binomial(n, k) == 0,
    decreases n,
{
    if n > 0 {
        lemma_binomial_beyond((n - 1) as nat, (k - 1) as nat);
        lemma_binomial_beyond((n - 1) as nat, k);
    }
}

/// There is one way to choose everything.
pub proof fn lemma_binomial_all(n: nat)
    ensures
        binomial(n, n) == 1,
    decreases n,
{
    if n > 0 {
        lemma_binomial_all((n - 1) as nat);
        lemma_binomial_beyond((n - 1) as nat, n);
    }
}

/// Choosing `k` of `n` and marking one of the chosen is choosing the marked
/// one of `n` and `k - 1` of the rest.
#[verifier::rlimit(40)]
pub proof fn lemma_binomial_absorb(n: nat, k: nat)
    requires
        n >= 1,
        k >= 1,
    ensures
        k * binomial(n, k) == n * binomial((n - 1) as nat, (k - 1) as nat),
    decreases n,
{
    let m = (n - 1) as nat;
    let j = (k - 1) as nat;
    assert(binomial(n, k) == binomial(m, j) + binomial(m, k));
    if m == 0 {
        lemma_binomial_beyond(0, k);
        if j > 0 {
            lemma_binomial_beyond(0, j);
        }
        assert(k * binomial(n, k) == n * binomial(m, j)) by (nonlinear_arith)
            requires
                n == 1,
                binomial(n, k) == binomial(m, j),
                binomial(m, j) == (if j == 0 { 1int } else { 0int }),
                k == j + 1,
        ;
    } else {
        // k C(m, k) = m C(m - 1, k - 1)
        lemma_binomial_absorb(m, k);
        let below = binomial((m - 1) as nat, j);
        if j == 0 {
            assert(binomial(m, j) == 1);
            assert(below == 1);
            assert(k * binomial(n, k) == n * binomial(m, j)) by (nonlinear_arith)
                requires
                    k == 1,
                    binomial(n, k) == 1 + binomial(m, k),
                    k * binomial(m, k) == m * 1,
                    binomial(m, j) == 1,
                    n == m + 1,
            ;
        } else {
            // (k - 1) C(m, k - 1) = m C(m - 1, k - 2)
            lemma_binomial_absorb(m, j);
            let lower = binomial((m - 1) as nat, (j - 1) as nat);
            assert(binomial(m, j) == lower + below);
            assert(k * binomial(n, k) == n * binomial(m, j)) by (nonlinear_arith)
                requires
                    binomial(n, k) == binomial(m, j) + binomial(m, k),
                    k * binomial(m, k) == m * below,
                    j * binomial(m, j) == m * lower,
                    binomial(m, j) == lower + below,
                    k == j + 1,
                    n == m + 1,
            ;
        }
    }
}

/// The sums for the exponent `n + 1` in terms of those for the exponent `n`.
#[verifier::rlimit(40)]
pub proof fn lemma_binomial_sum_step(a: int, n: nat, m: nat)
    ensures
        binomial_sum(a, n + 1, m + 1) == a * binomial_sum(a, n, m) + binomial_sum(a, n, m + 1),
    decreases m,
{
    if m == 0 {
        lemma_pow0(a);
        assert(binomial_sum(a, n + 1, 1) == binomial_sum(a, n + 1, 0) + binomial(n + 1, 0) * pow(
            a,
            0,
        ));
        assert(binomial_sum(a, n, 1) == binomial_sum(a, n, 0) + binomial(n, 0) * pow(a, 0));
        assert(a * binomial_sum(a, n, 0) == 0);
    } else {
        let j = (m - 1) as nat;
        lemma_binomial_sum_step(a, n, j);
        // the new terms
        let up = binomial(n + 1, m);
        let left = binomial(n, j);
        let right = binomial(n, m);
        assert(up == left + right);
        lemma_pow_adds(a, 1, j);
        lemma_pow1(a);
        let low = pow(a, j);
        let high = pow(a, m);
        assert(high == a * low);
        let before = binomial_sum(a, n, j);
        assert(binomial_sum(a, n, m) == before + left * low);
        assert(binomial_sum(a, n, m + 1) == binomial_sum(a, n, m) + right * high);
        assert(binomial_sum(a, n + 1, m + 1) == binomial_sum(a, n + 1, m) + up * high);
        assert(a * (before + left * low) == a * before + left * high) by (nonlinear_arith)
            requires
                high == a * low,
        ;
        assert(up * high == left * high + right * high) by (nonlinear_arith)
            requires
                up == left + right,
        ;
    }
}

/// The binomial theorem: `(a + 1)^n` is the sum of the terms
/// `binomial(n, k) a^k` for `k` from 0 to `n`.
#[verifier::rlimit(40)]
pub proof fn lemma_binomial_theorem(a: int, n: nat)
    ensures
        pow(a + 1, n) == binomial_sum(a, n, n + 1),
    decreases n,
{
    if n == 0 {
        lemma_pow0(a + 1);
        lemma_pow0(a);
        assert(binomial_sum(a, 0, 1) == binomial_sum(a, 0, 0) + binomial(0, 0) * pow(a, 0));
    } else {
        let m = (n - 1) as nat;
        lemma_binomial_theorem(a, m);
        lemma_binomial_sum_step(a, m, n);
        // the sum for m with one term more: that term is zero
        lemma_binomial_beyond(m, n);
        let full = binomial_sum(a, m, n);
        assert(binomial_sum(a, m, n + 1) == full + binomial(m, n) * pow(a, n));
        assert(binomial(m, n) * pow(a, n) == 0) by (nonlinear_arith)
            requires
                binomial(m, n) == 0,
        ;
        lemma_pow_adds(a + 1, 1, m);
        lemma_pow1(a + 1);
        assert(pow(a + 1, n) == (a + 1) * pow(a + 1, m));
        assert((a + 1) * full == a * full + full) by (nonlinear_arith);
    }
}

/// 3329 is prime: no number between 1 and 3329 divides it.
#[verifier::rlimit(40)]
pub proof fn lemma_prime(a: int)
    requires
        1 < a < 3329,
    ensures
        3329int % a != 0,
{
    let x: u32 = a as u32;
    assert(3329u32 % x != 0) by (bit_vector)
        requires
            1 < x < 3329,
    ;
}

/// Every nonzero residue has an inverse.
#[verifier::rlimit(40)]
pub proof fn lemma_inverse_exists(a: int) -> (b: int)
    requires
        0 < a < 3329,
    ensures
        0 < b < 3329,
        (a * b) % 3329 == 1,
    decreases a,
{
    if a == 1 {
        lemma_small_mod(1, 3329);
        1
    } else {
        lemma_prime(a);
        let t = 3329int / a;
        let r = 3329int % a;
        lemma_fundamental_div_mod(3329, a);
        lemma_mod_bound(3329, a);
        let c = lemma_inverse_exists(r);
        // a (-t c) = (r - 3329) c
        let raw = -(t * c);
        assert(a * raw == 3329 * (-c) + r * c) by (nonlinear_arith)
            requires
                3329 == a * t + r,
                raw == -(t * c),
        ;
        lemma_mod_multiples_vanish(-c, r * c, 3329);
        let b = raw % 3329;
        lemma_mod_bound(raw, 3329);
        lemma_mul_mod_noop_general(a, raw, 3329);
        lemma_small_mod(a as nat, 3329);
        if b == 0 {
            assert(a * b == 0);
            lemma_small_mod(0, 3329);
        }
        b
    }
}

/// 3329 divides the binomial coefficients of 3329 but the first and the
/// last.
#[verifier::rlimit(40)]
pub proof fn lemma_binomial_divisible(k: nat)
    requires
        0 < k < 3329,
    ensures
        binomial(3329, k) % 3329 == 0,
{
    lemma_binomial_absorb(3329, k);
    let c = binomial(3329, k);
    let below = binomial(3328, (k - 1) as nat);
    let inverse = lemma_inverse_exists(k as int);
    // c = (inverse k) c = inverse (3329 below) modulo 3329
    let turns = (k * inverse) / 3329;
    lemma_fundamental_div_mod(k * inverse, 3329);
    assert(k * inverse == 3329 * turns + 1);
    assert(c == 3329 * (inverse * below - turns * c)) by (nonlinear_arith)
        requires
            k * inverse == 3329 * turns + 1,
            k * c == 3329 * below,
    ;
    lemma_mod_multiples_vanish(inverse * below - turns * c, 0, 3329);
    lemma_small_mod(0, 3329);
}

/// Modulo 3329, the expansion of `(a + 1)^3329` without its last term is 1.
#[verifier::rlimit(40)]
pub proof fn lemma_binomial_sum_residue(a: int, m: nat)
    requires
        1 <= m <= 3329,
    ensures
        binomial_sum(a, 3329, m) % 3329 == 1,
    decreases m,
{
    if m == 1 {
        lemma_pow0(a);
        assert(binomial_sum(a, 3329, 1) == binomial_sum(a, 3329, 0) + binomial(3329, 0) * pow(
            a,
            0,
        ));
        lemma_small_mod(1, 3329);
    } else {
        let j = (m - 1) as nat;
        lemma_binomial_sum_residue(a, j);
        lemma_binomial_divisible(j);
        let c = binomial(3329, j);
        let turns = c / 3329;
        lemma_fundamental_div_mod(c, 3329);
        assert(c == 3329 * turns);
        assert(c * pow(a, j) == 3329 * (turns * pow(a, j))) by (nonlinear_arith)
            requires
                c == 3329 * turns,
        ;
        lemma_mod_multiples_vanish(turns * pow(a, j), binomial_sum(a, 3329, j), 3329);
    }
}

/// Raising to the power 3329 leaves every residue unchanged.
#[verifier::rlimit(40)]
pub proof fn lemma_power_of_prime(a: nat)
    ensures
        pow(a as int, 3329) % 3329 == a % 3329,
    decreases a,
{
    if a == 0 {
        lemma_pow_adds(0, 1, 3328);
        lemma_pow1(0);
        assert(pow(0, 3329) == 0 * pow(0, 3328));
        lemma_small_mod(0, 3329);
    } else {
        let b = (a - 1) as int;
        lemma_power_of_prime((a - 1) as nat);
        lemma_binomial_theorem(b, 3329);
        lemma_binomial_sum_residue(b, 3329);
        lemma_binomial_all(3329);
        let most = binomial_sum(b, 3329, 3329);
        assert(binomial_sum(b, 3329, 3330) == most + binomial(3329, 3329) * pow(b, 3329));
        assert(pow(a as int, 3329) == most + pow(b, 3329));
        lemma_add_mod_noop(most, pow(b, 3329), 3329);
        lemma_add_mod_noop(1, b, 3329);
        lemma_small_mod(1, 3329);
    }
}

/// Fermat's little theorem for 3329: the power `Q - 1` of a nonzero residue
/// is 1.
#[verifier::rlimit(40)]
pub proof fn lemma_fermat(a: int)
    requires
        0 < a < 3329,
    ensures
        pow(a, 3328) % 3329 == 1,
{
    lemma_power_of_prime(a as nat);
    lemma_pow_adds(a, 1, 3328);
    lemma_pow1(a);
    let rest = pow(a, 3328);
    assert(pow(a, 3329) == a * rest);
    lemma_small_mod(a as nat, 3329);
    // a rest = a modulo 3329; multiply by the inverse of a
    let b = lemma_inverse_exists(a);
    let turns = (a * b) / 3329;
    lemma_fundamental_div_mod(a * b, 3329);
    assert(a * b == 3329 * turns + 1);
    let wraps = (a * rest) / 3329;
    lemma_fundamental_div_mod(a * rest, 3329);
    assert(a * rest == 3329 * wraps + a);
    // rest = (a b - 3329 turns) rest = b (a rest) - 3329 turns rest
    //      = b (3329 wraps + a) - 3329 turns rest = 3329 (...) + a b
    assert(rest == 3329 * (b * wraps - turns * rest + turns) + 1) by (nonlinear_arith)
        requires
            a * b == 3329 * turns + 1,
            a * rest == 3329 * wraps + a,
    ;
    lemma_mod_multiples_vanish(b * wraps - turns * rest + turns, 1, 3329);
    lemma_small_mod(1, 3329);
}

/// The power `Q - 2` of a nonzero residue is its inverse.
pub proof fn lemma_inverse_power(a: int)
    requires
        0 < a < 3329,
    ensures
        fmul(a, fpow(a, 3327)) == 1,
{
    lemma_fermat(a);
    lemma_pow_adds(a, 1, 3327);
    lemma_pow1(a);
    assert(pow(a, 3328) == a * pow(a, 3327));
    lemma_mul_mod_noop_general(a, pow(a, 3327), 3329);
    lemma_small_mod(a as nat, 3329);
}

} // verus!
