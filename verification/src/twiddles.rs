//! How the factors of the transform hang together: the square of the factor of
//! a butterfly is the factor of the butterfly one layer up, or its opposite.
use crate::arith::{
    bit_reverse, lemma_cong_mul2, lemma_power_of_two_gap, mul_mod, neg_mod, pow_mod,
    power_of_two,
};
use crate::ntt::{
    first_generator, lemma_first_generator_is_root, lemma_generator_exists, ntt_feasible,
    ntt_root, twiddle,
};
use vstd::arithmetic::div_mod::*;
use vstd::arithmetic::mul::*;
use vstd::arithmetic::power::*;
use vstd::prelude::*;

verus! {

/// Of two powers of two, the smaller divides the larger.
pub proof fn lemma_power_of_two_divides(a: int, b: int)
    requires
        power_of_two(a),
        power_of_two(b),
        a <= b,
    ensures
        b % a == 0,
    decreases b,
{
    if a == b {
        lemma_mod_self_0(a);
    } else if a == 1 {
        lemma_mod_multiples_basic(b, 1);
    } else {
        lemma_power_of_two_divides(a / 2, b / 2);
        lemma_fundamental_div_mod(b / 2, a / 2);
        let q = (b / 2) / (a / 2);
        assert(b == a * q) by (nonlinear_arith)
            requires
                b / 2 == (a / 2) * q,
                b == 2 * (b / 2),
                a == 2 * (a / 2),
        ;
        lemma_mod_multiples_basic(q, a);
        lemma_mul_is_commutative(a, q);
    }
}

/// The reversal of an index `k` with `k * d < n` is a multiple of `d`, for
/// powers of two `d` and `n`: low bits of the reversal are high bits of the
/// index.
pub proof fn lemma_bit_reverse_divisible(k: nat, n: nat, d: nat)
    requires
        power_of_two(n as int),
        power_of_two(d as int),
        k * d < n,
    ensures
        bit_reverse(k, n) % d == 0,
    decreases k,
{
    if k == 0 {
        lemma_small_mod(0, d);
    } else {
        assert(d < n) by (nonlinear_arith)
            requires
                k * d < n,
                k >= 1,
                d >= 0,
        ;
        lemma_power_of_two_gap(d as int, n as int);
        assert(power_of_two((n / 2) as int));
        lemma_power_of_two_divides(d as int, (n / 2) as int);
        if k == 1 {
        } else {
            assert((k / 2) * (2 * d) < n) by (nonlinear_arith)
                requires
                    k * d < n,
                    k >= 2,
                    d >= 1,
                    2 * (k / 2) <= k,
            ;
            assert(power_of_two((2 * d) as int));
            lemma_bit_reverse_divisible(k / 2, n, 2 * d);
            let below = bit_reverse(k / 2, n) as int;
            lemma_fundamental_div_mod(below, (2 * d) as int);
            let q = below / ((2 * d) as int);
            assert(below == 2 * (d * q)) by (nonlinear_arith)
                requires
                    below == (2 * d) * q,
            ;
            assert(below / 2 == d * q);
            lemma_mod_multiples_basic(q, d as int);
            lemma_mul_is_commutative(d as int, q);
            assert((below / 2) % (d as int) == 0);
            if k % 2 == 1 {
                assert((k % 2) * (n / 2) == n / 2) by (nonlinear_arith)
                    requires
                        k % 2 == 1,
                ;
            } else {
                assert((k % 2) * (n / 2) == 0) by (nonlinear_arith)
                    requires
                        k % 2 == 0,
                ;
            }
            lemma_add_mod_noop(below / 2, ((k % 2) * (n / 2)) as int, d as int);
            lemma_small_mod(0, d);
        }
    }
}

/// The `n`-th power of the root of the transform is -1.
pub proof fn lemma_root_power(p: int, n: int)
    requires
        ntt_feasible(p, n),
    ensures
        pow_mod(ntt_root(p, n), n as nat, p) == p - 1,
        0 <= ntt_root(p, n) < p,
{
    lemma_generator_exists(p, n);
    lemma_first_generator_is_root(p, n, 2);
    lemma_mod_bound(pow(first_generator(p, n, 2), ((p - 1) / (2 * n)) as nat), p);
}

/// The square of the first factor is -1; the square of factor `2k` is factor
/// `k`, and the square of factor `2k + 1` is the opposite of factor `k`.
pub proof fn lemma_twiddle_square(p: int, n: int, k: int)
    requires
        ntt_feasible(p, n),
        1 <= k,
        2 * k < n,
    ensures
        mul_mod(twiddle(p, n, 1), twiddle(p, n, 1), p) == p - 1,
        mul_mod(twiddle(p, n, 2 * k), twiddle(p, n, 2 * k), p) == twiddle(p, n, k),
        mul_mod(twiddle(p, n, 2 * k + 1), twiddle(p, n, 2 * k + 1), p) == neg_mod(
            twiddle(p, n, k),
            p,
        ),
{
    let psi = ntt_root(p, n);
    lemma_root_power(p, n);
    let half = (n / 2) as nat;
    // the first factor
    assert(bit_reverse(1, n as nat) == half);
    lemma_mul_mod_noop(pow(psi, half), pow(psi, half), p);
    lemma_pow_adds(psi, half, half);
    assert(half + half == n);
    // factor 2k
    let e = bit_reverse(k as nat, n as nat);
    assert(power_of_two(1));
    assert(power_of_two(2));
    lemma_bit_reverse_divisible(k as nat, n as nat, 2);
    assert(e % 2 == 0);
    let low = bit_reverse((2 * k) as nat, n as nat);
    assert((2 * k) / 2 == k);
    assert(((2 * k) % 2) * (n / 2) == 0) by (nonlinear_arith)
        requires
            (2 * k) % 2 == 0,
    ;
    assert(low == e / 2);
    lemma_mul_mod_noop(pow(psi, low), pow(psi, low), p);
    lemma_pow_adds(psi, low, low);
    assert(low + low == e);
    // factor 2k + 1
    let high = bit_reverse((2 * k + 1) as nat, n as nat);
    assert((2 * k + 1) / 2 == k);
    assert(((2 * k + 1) % 2) * (n / 2) == n / 2) by (nonlinear_arith)
        requires
            (2 * k + 1) % 2 == 1,
    ;
    assert(high == e / 2 + n / 2);
    lemma_mul_mod_noop(pow(psi, high), pow(psi, high), p);
    lemma_pow_adds(psi, high, high);
    assert(high + high == e + n);
    lemma_pow_adds(psi, e, n as nat);
    lemma_mod_bound(pow(psi, e), p);
    // psi^(e + n) is psi^e times -1
    lemma_mod_twice(pow(psi, e), p);
    lemma_small_mod((p - 1) as nat, p as nat);
    lemma_cong_mul2(pow(psi, e), twiddle(p, n, k), pow(psi, n as nat), p - 1, p);
    let t = twiddle(p, n, k);
    assert(t * (p - 1) == t * p - t) by (nonlinear_arith);
    lemma_mod_multiples_vanish(t, -t, p);
    lemma_mul_is_commutative(t, p);
}

} // verus!
