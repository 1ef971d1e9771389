//! Fermat's little theorem, by way of the binomial theorem: modulo a prime `p`,
//! `(a + 1)^p = a^p + 1`, hence `a^p = a`, hence `a^(p - 1) = 1` for `a` not
//! divisible by `p`.
use crate::arith::{is_prime, lemma_cong_add_sub, lemma_cong_mul, lemma_euclid, pow_mod};
use vstd::arithmetic::div_mod::*;
use vstd::arithmetic::mul::*;
use vstd::arithmetic::power::*;
use vstd::prelude::*;

verus! {

/// The binomial coefficient, by Pascal's rule.
pub open spec fn binomial(n: nat, k: nat) -> nat
    decreases n,
{
    if k == 0 {
        1
    } else if n == 0 {
        0
    } else {
        binomial((n - 1) as nat, (k - 1) as nat) + binomial((n - 1) as nat, k)
    }
}

/// The sum of `binomial(n, i) * a^i` over `i` from 0 to `k`.
pub open spec fn binomial_sum(n: nat, a: int, k: nat) -> int
    decreases k,
{
    if k == 0 {
        1
    } else {
        binomial_sum(n, a, (k - 1) as nat) + binomial(n, k) * pow(a, k)
    }
}

/// Beyond `n` the binomial coefficients of `n` are zero, and the last is 1.
pub proof fn lemma_binomial_edge(n: nat, k: nat)
    ensures
        k > n ==> binomial(n, k) == 0,
        binomial(n, n) == 1,
    decreases n,
{
    if n > 0 {
        if k > 0 {
            lemma_binomial_edge((n - 1) as nat, (k - 1) as nat);
            lemma_binomial_edge((n - 1) as nat, k);
        }
        lemma_binomial_edge((n - 1) as nat, (n - 1) as nat);
        lemma_binomial_edge((n - 1) as nat, n);
    }
}

/// Two identities of the binomial coefficients:
/// `k * binomial(n, k) == (n - k + 1) * binomial(n, k - 1)`, and
/// `k * binomial(n, k) == n * binomial(n - 1, k - 1)` for `n >= 1`.
pub proof fn lemma_binomial_absorb(n: nat, k: nat)
    requires
        k >= 1,
    ensures
        k * binomial(n, k) == (n - k + 1) * binomial(n, (k - 1) as nat),
        n >= 1 ==> k * binomial(n, k) == n * binomial((n - 1) as nat, (k - 1) as nat),
    decreases n,
{
    if n == 0 {
        assert(binomial(0, k) == 0);
        if k >= 2 {
            assert(binomial(0, (k - 1) as nat) == 0);
        }
        assert(k * 0 == 0 && (n - k + 1) * 0 == 0);
        assert(k * binomial(n, k) == (n - k + 1) * binomial(n, (k - 1) as nat)) by (nonlinear_arith)
            requires
                binomial(n, k) == 0,
                n - k + 1 == 0 || binomial(n, (k - 1) as nat) == 0,
        ;
    } else {
        let m = (n - 1) as nat;
        let up = binomial(m, (k - 1) as nat) as int;
        let side = binomial(m, k) as int;
        assert(binomial(n, k) == up + side);
        lemma_binomial_absorb(m, k);
        assert(k * side == (m - k + 1) * up);
        // k * binomial(n, k) == n * up
        assert(k * (up + side) == n * up) by (nonlinear_arith)
            requires
                k * side == (m - k + 1) * up,
                m == n - 1,
        ;
        if k == 1 {
            assert(binomial(n, 0) == 1);
            assert(up == 1);
            assert((n - k + 1) * 1 == n * up) by (nonlinear_arith)
                requires
                    k == 1,
                    up == 1,
            ;
        } else {
            let far = binomial(m, (k - 2) as nat) as int;
            assert(binomial(n, (k - 1) as nat) == far + up);
            lemma_binomial_absorb(m, (k - 1) as nat);
            assert((k - 1) * up == (m - (k - 1) + 1) * far);
            assert((n - k + 1) * (far + up) == n * up) by (nonlinear_arith)
                requires
                    (k - 1) * up == (m - (k - 1) + 1) * far,
                    m == n - 1,
            ;
        }
    }
}

/// A prime divides its binomial coefficients, the first and the last apart.
pub proof fn lemma_binomial_prime(p: nat, k: nat)
    requires
        is_prime(p as int),
        0 < k < p,
    ensures
        binomial(p, k) % p == 0,
{
    lemma_binomial_absorb(p, k);
    let b = binomial(p, k) as int;
    let c = binomial((p - 1) as nat, (k - 1) as nat) as int;
    assert(k * b == p * c);
    lemma_mod_multiples_basic(c, p as int);
    lemma_mul_is_commutative(p as int, c);
    assert((k * b) % (p as int) == 0);
    lemma_euclid(p as int, k as int, b);
    lemma_small_mod(k, p);
}

/// Multiplying a partial sum of the binomial theorem by `a + 1` gives the
/// partial sum for the next power, and one term more.
pub proof fn lemma_binomial_step(n: nat, a: int, k: nat)
    ensures
        (a + 1) * binomial_sum(n, a, k) == binomial_sum(n + 1, a, k) + binomial(n, k) * pow(
            a,
            k + 1,
        ),
    decreases k,
{
    if k == 0 {
        lemma_pow1(a);
        assert(binomial(n, 0) == 1);
        assert((a + 1) * 1 == 1 + 1 * a) by (nonlinear_arith);
    } else {
        lemma_binomial_step(n, a, (k - 1) as nat);
        let before = binomial_sum(n, a, (k - 1) as nat);
        let next_before = binomial_sum(n + 1, a, (k - 1) as nat);
        let low = binomial(n, (k - 1) as nat) as int;
        let high = binomial(n, k) as int;
        let x = pow(a, k);
        let y = pow(a, k + 1);
        lemma_pow_adds(a, k, 1);
        lemma_pow1(a);
        assert(y == x * a);
        assert(binomial(n + 1, k) == low + high);
        // (a + 1) * (before + high * x)
        //     == next_before + low * x + high * x + high * y
        assert((a + 1) * (before + high * x) == (a + 1) * before + high * (x * a) + high * x)
            by (nonlinear_arith);
        assert((low + high) * x == low * x + high * x) by (nonlinear_arith);
    }
}

/// The binomial theorem for `a + 1`.
pub proof fn lemma_binomial_theorem(a: int, n: nat)
    ensures
        pow(a + 1, n) == binomial_sum(n, a, n),
    decreases n,
{
    if n == 0 {
        lemma_pow0(a + 1);
    } else {
        let m = (n - 1) as nat;
        lemma_binomial_theorem(a, m);
        lemma_pow_adds(a + 1, 1, m);
        lemma_pow1(a + 1);
        lemma_binomial_step(m, a, m);
        lemma_binomial_edge(m, m);
        lemma_binomial_edge(n, n);
        assert(binomial(m, m) * pow(a, n) == binomial(n, n) * pow(a, n));
    }
}

/// Modulo a prime, the partial sums of the binomial theorem for that prime
/// are 1 as long as they stop before the last term.
pub proof fn lemma_binomial_sum_prime(p: nat, a: int, k: nat)
    requires
        is_prime(p as int),
        k < p,
    ensures
        binomial_sum(p, a, k) % (p as int) == 1,
    decreases k,
{
    if k == 0 {
        lemma_small_mod(1, p);
    } else {
        lemma_binomial_sum_prime(p, a, (k - 1) as nat);
        lemma_binomial_prime(p, k);
        let b = binomial(p, k) as int;
        lemma_small_mod(0, p);
        lemma_small_mod(1, p);
        lemma_cong_mul(b, 0, pow(a, k), p as int);
        lemma_mul_basics(pow(a, k));
        lemma_cong_add_sub(
            binomial_sum(p, a, (k - 1) as nat),
            1,
            b * pow(a, k),
            0,
            p as int,
        );
    }
}

/// Modulo a prime `p`, every number is its own `p`-th power.
pub proof fn lemma_fermat_power(p: nat, a: nat)
    requires
        is_prime(p as int),
    ensures
        pow(a as int, p) % (p as int) == (a as int) % (p as int),
    decreases a,
{
    if a == 0 {
        lemma0_pow(p);
    } else {
        let b = (a - 1) as int;
        lemma_fermat_power(p, (a - 1) as nat);
        lemma_binomial_theorem(b, p);
        lemma_binomial_sum_prime(p, b, (p - 1) as nat);
        lemma_binomial_edge(p, p);
        lemma_small_mod(1, p);
        // pow(b + 1, p) == binomial_sum(p, b, p - 1) + pow(b, p)
        assert(binomial_sum(p, b, p) == binomial_sum(p, b, (p - 1) as nat) + 1 * pow(b, p));
        lemma_mul_basics(pow(b, p));
        lemma_cong_add_sub(binomial_sum(p, b, (p - 1) as nat), 1, pow(b, p), b, p as int);
    }
}

/// Fermat's little theorem: modulo a prime `p`, the power `p - 1` of a number
/// that `p` does not divide is 1.
pub proof fn lemma_fermat(p: nat, a: nat)
    requires
        is_prime(p as int),
        a % p != 0,
    ensures
        pow_mod(a as int, (p - 1) as nat, p as int) == 1,
{
    let pi = p as int;
    let ai = a as int;
    let x = pow(ai, (p - 1) as nat);
    lemma_small_mod(0, p);
    assert(a > 0);
    lemma_fermat_power(p, a);
    lemma_pow_adds(ai, 1, (p - 1) as nat);
    lemma_pow1(ai);
    assert(pow(ai, p) == ai * x);
    lemma_pow_positive(ai, (p - 1) as nat);
    // p divides a * (x - 1)
    assert(ai * (x - 1) == ai * x - ai) by (nonlinear_arith);
    lemma_cong_add_sub(ai * x, ai, ai, ai, pi);
    assert((ai * (x - 1)) % pi == 0);
    lemma_euclid(pi, ai, x - 1);
    assert((x - 1) % pi == 0);
    lemma_cong_add_sub(x - 1, 0, 1, 1, pi);
    lemma_small_mod(1, p);
}

} // verus!
