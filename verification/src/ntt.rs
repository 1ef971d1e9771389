//! The negacyclic number-theoretic transform of size `n` modulo one prime: a
//! chain of `log2(n)` butterfly layers, each of which reads the pairs
//! `(j, j + n/2)` and writes the pairs `(2j, 2j + 1)`.
//!
//! The transform is specified layer by layer here, and proved here to be
//! undone by the backward transform. That its entries are the values of the
//! polynomial at the roots of `X^n + 1`, and that it turns the product of
//! polynomials into the product entry by entry, is proved in the modules
//! `evaluation` and `ring`.
use crate::arith::{
    add_mod, bit_reverse, degree_ok, is_prime, lemma_bit_reverse_bound, lemma_cong_add_sub,
    lemma_cong_mul, lemma_cong_mul2, lemma_pow_inverse, lemma_pow_mod_succ,
    lemma_power_of_two_gap, lemma_root_order, modulus_ok, mul_mod, pow_mod, power_of_two,
    reduced, sub_mod,
};
use crate::primes::prime_word;
use crate::roots::lemma_minus_one_power;
use crate::wipe::wipe_words;
use crate::zq::Modulus;
use vstd::arithmetic::div_mod::*;
use vstd::arithmetic::mul::*;
use vstd::arithmetic::power::*;
use vstd::prelude::*;

verus! {

/// The power of the candidate `g` that has order dividing `2n` modulo `p`.
pub open spec fn root_candidate(p: int, n: int, g: int) -> int {
    pow_mod(g, ((p - 1) / (2 * n)) as nat, p)
}

/// `r` is a primitive `2n`-th root of unity modulo `p`: its `n`-th power is -1.
pub open spec fn is_root(p: int, n: int, r: int) -> bool {
    pow_mod(r, n as nat, p) == p - 1
}

/// The smallest `g >= from` whose candidate is a primitive `2n`-th root of
/// unity, or `p` when there is none below `p`.
pub open spec fn first_generator(p: int, n: int, from: int) -> int
    decreases p - from,
{
    if from >= p {
        p
    } else if is_root(p, n, root_candidate(p, n, from)) {
        from
    } else {
        first_generator(p, n, from + 1)
    }
}

/// The primitive `2n`-th root of unity that the transform modulo `p` is built on.
pub open spec fn ntt_root(p: int, n: int) -> int {
    root_candidate(p, n, first_generator(p, n, 2))
}

/// The inverse of `ntt_root`.
pub open spec fn ntt_root_inv(p: int, n: int) -> int {
    pow_mod(ntt_root(p, n), (2 * n - 1) as nat, p)
}

/// The inverse of 2 modulo an odd `p`.
pub open spec fn half_of(p: int) -> int {
    (p + 1) / 2
}

/// Whether `p` is a prime with `p = 1 (mod 2n)`: the condition under which the
/// numbers modulo `p` hold a primitive `2n`-th root of unity.
pub open spec fn supports_ntt_spec(p: int, n: int) -> bool {
    p % (2 * n) == 1 && is_prime(p)
}

/// Whether a transform of size `n` modulo `p` can be built: the size is a
/// valid degree, and `p` is a modulus in range that supports it.
pub open spec fn ntt_feasible(p: int, n: int) -> bool {
    &&& degree_ok(n)
    &&& modulus_ok(p)
    &&& supports_ntt_spec(p, n)
}

/// The factor of butterfly `k`: the root raised to the bit-reversed index.
pub open spec fn twiddle(p: int, n: int, k: int) -> int {
    pow_mod(ntt_root(p, n), bit_reverse(k as nat, n as nat), p)
}

/// Half the inverse of `twiddle`, the factor of the inverse butterfly `k`.
pub open spec fn twiddle_inv(p: int, n: int, k: int) -> int {
    mul_mod(half_of(p), pow_mod(ntt_root_inv(p, n), bit_reverse(k as nat, n as nat), p), p)
}

/// One layer of the forward transform with `m` blocks: the pair `(j, j + n/2)`
/// of `a` becomes the pair `(2j, 2j + 1)`, as sum and difference of the first
/// entry and the second entry times the factor of its block.
pub open spec fn forward_layer(a: Seq<u64>, p: int, m: int) -> Seq<u64> {
    let n = a.len() as int;
    Seq::new(
        a.len(),
        |i: int|
            {
                let j = i / 2;
                let t = mul_mod(twiddle(p, n, m + j % m), a[j + n / 2] as int, p);
                if i % 2 == 0 {
                    add_mod(a[j] as int, t, p) as u64
                } else {
                    sub_mod(a[j] as int, t, p) as u64
                }
            },
    )
}

/// The layer that undoes `forward_layer` with `m` blocks: the pair
/// `(2j, 2j + 1)` of `b` becomes the pair `(j, j + n/2)`, as half the sum, and
/// half the difference divided by the factor of the block.
pub open spec fn backward_layer(b: Seq<u64>, p: int, m: int) -> Seq<u64> {
    let n = b.len() as int;
    Seq::new(
        b.len(),
        |i: int|
            if i < n / 2 {
                mul_mod(add_mod(b[2 * i] as int, b[2 * i + 1] as int, p), half_of(p), p) as u64
            } else {
                let j = i - n / 2;
                mul_mod(
                    sub_mod(b[2 * j] as int, b[2 * j + 1] as int, p),
                    twiddle_inv(p, n, m + j % m),
                    p,
                ) as u64
            },
    )
}

/// The forward layers with `m`, `2m`, `4m`, ... blocks, as long as the number
/// of blocks is below `n`, in this order.
pub open spec fn forward_from(a: Seq<u64>, p: int, m: int, n: int) -> Seq<u64>
    decreases (if m >= n { 0 } else { n - m }),
{
    if m < 1 || m >= n {
        a
    } else {
        forward_from(forward_layer(a, p, m), p, 2 * m, n)
    }
}

/// The backward layers with ..., `4m`, `2m`, `m` blocks, in this order, starting
/// from the largest number of blocks below `n`.
pub open spec fn backward_from(b: Seq<u64>, p: int, m: int, n: int) -> Seq<u64>
    decreases (if m >= n { 0 } else { n - m }),
{
    if m < 1 || m >= n {
        b
    } else {
        backward_layer(backward_from(b, p, 2 * m, n), p, m)
    }
}

/// The transform of the coefficients `a` modulo `p`.
pub open spec fn ntt_forward(a: Seq<u64>, p: int) -> Seq<u64> {
    forward_from(a, p, 1, a.len() as int)
}

/// The coefficients whose transform modulo `p` is `b`.
pub open spec fn ntt_backward(b: Seq<u64>, p: int) -> Seq<u64> {
    backward_from(b, p, 1, b.len() as int)
}

/// The factors of the butterflies are residues.
pub proof fn lemma_twiddle_bounds(p: int, n: int, k: int)
    requires
        p > 0,
    ensures
        0 <= twiddle(p, n, k) < p,
        0 <= twiddle_inv(p, n, k) < p,
{
    lemma_mod_bound(pow(ntt_root(p, n), bit_reverse(k as nat, n as nat)), p);
    lemma_mod_bound(
        half_of(p) * pow_mod(ntt_root_inv(p, n), bit_reverse(k as nat, n as nat), p),
        p,
    );
}

/// The search for a generator ends no later than at a number whose candidate
/// is a root.
pub proof fn lemma_first_generator_bound(p: int, n: int, from: int, g: int)
    requires
        from <= g < p,
        is_root(p, n, root_candidate(p, n, g)),
    ensures
        first_generator(p, n, from) <= g,
    decreases g - from,
{
    if from < g && !is_root(p, n, root_candidate(p, n, from)) {
        lemma_first_generator_bound(p, n, from + 1, g);
    }
}

/// Modulo a prime `p = 1 (mod 2n)`, the search for a generator ends below `p`:
/// a number whose power `(p - 1) / 2` is -1 gives a root.
pub proof fn lemma_generator_exists(p: int, n: int)
    requires
        is_prime(p),
        n >= 2,
        p % (2 * n) == 1,
    ensures
        first_generator(p, n, 2) < p,
{
    lemma_fundamental_div_mod(p, 2 * n);
    let k = p / (2 * n);
    assert(p == (2 * n) * k + 1);
    assert(k >= 1) by (nonlinear_arith)
        requires
            p == (2 * n) * k + 1,
            p >= 2,
            n >= 2,
    ;
    assert(p - 1 == 2 * (n * k) && p >= 5) by (nonlinear_arith)
        requires
            p == (2 * n) * k + 1,
            k >= 1,
            n >= 2,
    ;
    lemma_mul_is_commutative(2 * n, k);
    lemma_fundamental_div_mod_converse(p - 1, 2 * n, k, 0);
    let exponent = ((p - 1) / (2 * n)) as nat;
    let h = ((p - 1) / 2) as nat;
    assert(exponent == k);
    assert(h == n * k);
    let g = lemma_minus_one_power(p);
    // the n-th power of the candidate of g is the h-th power of g
    lemma_pow_mod_noop(pow(g, exponent), n as nat, p);
    lemma_pow_multiplies(g, exponent, n as nat);
    assert(exponent * (n as nat) == h) by (nonlinear_arith)
        requires
            exponent == k,
            h == n * k,
            n >= 0,
    ;
    assert(is_root(p, n, root_candidate(p, n, g)));
    lemma_first_generator_bound(p, n, 2, g);
}

/// The search for a generator, where it ends below `p`, ends on a root.
pub proof fn lemma_first_generator_is_root(p: int, n: int, from: int)
    requires
        first_generator(p, n, from) < p,
    ensures
        from <= first_generator(p, n, from) || from >= p,
        is_root(p, n, root_candidate(p, n, first_generator(p, n, from))),
    decreases p - from,
{
    if from < p && !is_root(p, n, root_candidate(p, n, from)) {
        lemma_first_generator_is_root(p, n, from + 1);
    }
}

/// Where the transform is feasible, every factor times the matching inverse
/// factor is a half modulo `p`, and twice a half is 1.
pub proof fn lemma_twiddle_inverse(p: int, n: int, k: int)
    requires
        ntt_feasible(p, n),
    ensures
        p % 2 == 1,
        mul_mod(2, half_of(p), p) == 1,
        mul_mod(
            twiddle(p, n, k),
            pow_mod(ntt_root_inv(p, n), bit_reverse(k as nat, n as nat), p),
            p,
        ) == 1,
{
    lemma_generator_exists(p, n);
    lemma_first_generator_is_root(p, n, 2);
    lemma_root_order(ntt_root(p, n), n as nat, p);
    lemma_pow_inverse(ntt_root(p, n), ntt_root_inv(p, n), bit_reverse(k as nat, n as nat), p);
    lemma_fundamental_div_mod(p, 2 * n);
    let c = p / (2 * n);
    assert(p == 2 * (n * c) + 1) by (nonlinear_arith)
        requires
            p == (2 * n) * c + 1,
    ;
    assert(2 * half_of(p) == p + 1);
    lemma_mod_multiples_vanish(1, 1, p);
    lemma_small_mod(1, p as nat);
}

/// One inverse butterfly undoes one butterfly.
pub proof fn lemma_butterfly_inverse(u: int, v: int, w: int, wi: int, half: int, p: int)
    requires
        p > 1,
        0 <= u < p,
        0 <= v < p,
        mul_mod(2, half, p) == 1,
        mul_mod(w, wi, p) == 1,
    ensures
        ({
            let t = mul_mod(w, v, p);
            let x = add_mod(u, t, p);
            let y = sub_mod(u, t, p);
            &&& mul_mod(add_mod(x, y, p), half, p) == u
            &&& mul_mod(sub_mod(x, y, p), mul_mod(half, wi, p), p) == v
        }),
{
    let t = mul_mod(w, v, p);
    let x = add_mod(u, t, p);
    let y = sub_mod(u, t, p);
    let s = add_mod(x, y, p);
    let d = sub_mod(x, y, p);
    lemma_small_mod(1, p as nat);
    lemma_small_mod(u as nat, p as nat);
    lemma_small_mod(v as nat, p as nat);
    lemma_mod_twice(u + t, p);
    lemma_mod_twice(u - t, p);
    lemma_mod_twice(w * v, p);
    lemma_mod_twice(x + y, p);
    lemma_mod_twice(x - y, p);
    lemma_mod_twice(half * wi, p);
    // the sum of the pair is twice u
    lemma_cong_add_sub(x, u + t, y, u - t, p);
    assert(s % p == (2 * u) % p);
    lemma_cong_mul(s, 2 * u, half, p);
    lemma_mul_is_associative(u, 2, half);
    lemma_mul_is_commutative(2, u);
    assert((2 * u) * half == u * (2 * half));
    lemma_cong_mul(2 * half, 1, u, p);
    assert((s * half) % p == u);
    // the difference of the pair is twice w * v
    assert(d % p == (2 * t) % p);
    lemma_cong_mul(t, w * v, 2, p);
    assert(d % p == (2 * (w * v)) % p);
    lemma_cong_mul2(d, 2 * (w * v), mul_mod(half, wi, p), half * wi, p);
    assert((2 * (w * v)) * (half * wi) == v * ((2 * half) * (w * wi))) by (nonlinear_arith);
    lemma_cong_mul2(2 * half, 1, w * wi, 1, p);
    lemma_cong_mul((2 * half) * (w * wi), 1, v, p);
}

/// A backward layer undoes the forward layer with the same number of blocks.
pub proof fn lemma_layer_inverse(a: Seq<u64>, p: int, m: int)
    requires
        ntt_feasible(p, a.len() as int),
        reduced(a, p),
        1 <= m,
        2 * m <= a.len(),
    ensures
        backward_layer(forward_layer(a, p, m), p, m) == a,
        reduced(forward_layer(a, p, m), p),
        forward_layer(a, p, m).len() == a.len(),
{
    let n = a.len() as int;
    let h = n / 2;
    let f = forward_layer(a, p, m);
    let b = backward_layer(f, p, m);
    assert(n % 2 == 0);
    assert forall|i: int| 0 <= i < n implies (#[trigger] f[i]) < p by {
        let j = i / 2;
        let t = mul_mod(twiddle(p, n, m + j % m), a[j + h] as int, p);
        lemma_mod_bound(a[j] + t, p);
        lemma_mod_bound(a[j] - t, p);
    }
    assert forall|i: int| 0 <= i < n implies #[trigger] b[i] == a[i] by {
        let j = if i < h { i } else { i - h };
        let k = m + j % m;
        let w = twiddle(p, n, k);
        let wi = pow_mod(ntt_root_inv(p, n), bit_reverse(k as nat, n as nat), p);
        lemma_twiddle_inverse(p, n, k);
        assert(a[j] < p);
        assert(a[j + h] < p);
        lemma_butterfly_inverse(a[j] as int, a[j + h] as int, w, wi, half_of(p), p);
        let t = mul_mod(w, a[j + h] as int, p);
        lemma_mod_bound(a[j] + t, p);
        lemma_mod_bound(a[j] - t, p);
        assert((2 * j) / 2 == j);
        assert((2 * j + 1) / 2 == j);
        assert(f[2 * j] == add_mod(a[j] as int, t, p));
        assert(f[2 * j + 1] == sub_mod(a[j] as int, t, p));
    }
    assert(b =~= a);
}

/// The backward layers undo the forward layers.
pub proof fn lemma_layers_inverse(a: Seq<u64>, p: int, m: int)
    requires
        ntt_feasible(p, a.len() as int),
        reduced(a, p),
        power_of_two(m),
    ensures
        forward_from(a, p, m, a.len() as int).len() == a.len(),
        reduced(forward_from(a, p, m, a.len() as int), p),
        backward_from(forward_from(a, p, m, a.len() as int), p, m, a.len() as int) == a,
    decreases (if m >= a.len() { 0 } else { a.len() - m }),
{
    let n = a.len() as int;
    if 1 <= m < n {
        lemma_power_of_two_gap(m, n);
        lemma_layer_inverse(a, p, m);
        lemma_layers_inverse(forward_layer(a, p, m), p, 2 * m);
    }
}

/// Transforming coefficients and transforming back gives the coefficients again.
pub proof fn lemma_ntt_roundtrip(a: Seq<u64>, p: int)
    requires
        ntt_feasible(p, a.len() as int),
        reduced(a, p),
    ensures
        ntt_forward(a, p).len() == a.len(),
        reduced(ntt_forward(a, p), p),
        ntt_backward(ntt_forward(a, p), p) == a,
{
    lemma_layers_inverse(a, p, 1);
}

/// One butterfly undoes one inverse butterfly.
pub proof fn lemma_butterfly_forward(x: int, y: int, w: int, wi: int, half: int, p: int)
    requires
        p > 1,
        0 <= x < p,
        0 <= y < p,
        mul_mod(2, half, p) == 1,
        mul_mod(w, wi, p) == 1,
    ensures
        ({
            let u = mul_mod(add_mod(x, y, p), half, p);
            let v = mul_mod(sub_mod(x, y, p), mul_mod(half, wi, p), p);
            let t = mul_mod(w, v, p);
            &&& add_mod(u, t, p) == x
            &&& sub_mod(u, t, p) == y
        }),
{
    let s = add_mod(x, y, p);
    let d = sub_mod(x, y, p);
    let hw = mul_mod(half, wi, p);
    let u = mul_mod(s, half, p);
    let v = mul_mod(d, hw, p);
    let t = mul_mod(w, v, p);
    lemma_small_mod(1, p as nat);
    lemma_small_mod(x as nat, p as nat);
    lemma_small_mod(y as nat, p as nat);
    lemma_mod_twice(x + y, p);
    lemma_mod_twice(x - y, p);
    lemma_mod_twice(half * wi, p);
    lemma_mod_twice(s * half, p);
    lemma_mod_twice(d * hw, p);
    lemma_mod_twice(w * v, p);
    // u is congruent to (x + y) * half
    lemma_cong_mul(s, x + y, half, p);
    assert(u % p == ((x + y) * half) % p);
    // t is congruent to (x - y) * half
    lemma_cong_mul2(d, x - y, hw, half * wi, p);
    assert(v % p == ((x - y) * (half * wi)) % p);
    lemma_cong_mul(v, (x - y) * (half * wi), w, p);
    assert(w * ((x - y) * (half * wi)) == ((x - y) * half) * (w * wi)) by (nonlinear_arith);
    lemma_cong_mul(w * wi, 1, (x - y) * half, p);
    assert(t % p == ((x - y) * half) % p);
    // their sum is x, their difference is y
    lemma_cong_add_sub(u, (x + y) * half, t, (x - y) * half, p);
    assert((x + y) * half + (x - y) * half == x * (2 * half)) by (nonlinear_arith);
    assert((x + y) * half - (x - y) * half == y * (2 * half)) by (nonlinear_arith);
    lemma_cong_mul(2 * half, 1, x, p);
    lemma_cong_mul(2 * half, 1, y, p);
}

/// A forward layer undoes the backward layer with the same number of blocks.
pub proof fn lemma_layer_forward(b: Seq<u64>, p: int, m: int)
    requires
        ntt_feasible(p, b.len() as int),
        reduced(b, p),
        1 <= m,
        2 * m <= b.len(),
    ensures
        forward_layer(backward_layer(b, p, m), p, m) == b,
        reduced(backward_layer(b, p, m), p),
        backward_layer(b, p, m).len() == b.len(),
{
    let n = b.len() as int;
    let h = n / 2;
    let a = backward_layer(b, p, m);
    let f = forward_layer(a, p, m);
    assert(n % 2 == 0);
    assert forall|i: int| 0 <= i < n implies (#[trigger] a[i]) < p by {
        if i < h {
            lemma_mod_bound(add_mod(b[2 * i] as int, b[2 * i + 1] as int, p) * half_of(p), p);
        } else {
            let j = i - h;
            lemma_mod_bound(
                sub_mod(b[2 * j] as int, b[2 * j + 1] as int, p) * twiddle_inv(p, n, m + j % m),
                p,
            );
        }
    }
    assert forall|i: int| 0 <= i < n implies #[trigger] f[i] == b[i] by {
        let j = i / 2;
        let k = m + j % m;
        let w = twiddle(p, n, k);
        let wi = pow_mod(ntt_root_inv(p, n), bit_reverse(k as nat, n as nat), p);
        lemma_twiddle_inverse(p, n, k);
        assert(b[2 * j] < p);
        assert(b[2 * j + 1] < p);
        lemma_butterfly_forward(b[2 * j] as int, b[2 * j + 1] as int, w, wi, half_of(p), p);
        let s = add_mod(b[2 * j] as int, b[2 * j + 1] as int, p);
        let d = sub_mod(b[2 * j] as int, b[2 * j + 1] as int, p);
        lemma_mod_bound(s * half_of(p), p);
        lemma_mod_bound(d * twiddle_inv(p, n, k), p);
        assert(a[j] == mul_mod(s, half_of(p), p));
        assert(a[j + h] == mul_mod(d, twiddle_inv(p, n, k), p));
    }
    assert(f =~= b);
}

/// The forward layers undo the backward layers.
pub proof fn lemma_layers_forward(b: Seq<u64>, p: int, m: int)
    requires
        ntt_feasible(p, b.len() as int),
        reduced(b, p),
        power_of_two(m),
    ensures
        backward_from(b, p, m, b.len() as int).len() == b.len(),
        reduced(backward_from(b, p, m, b.len() as int), p),
        forward_from(backward_from(b, p, m, b.len() as int), p, m, b.len() as int) == b,
    decreases (if m >= b.len() { 0 } else { b.len() - m }),
{
    let n = b.len() as int;
    if 1 <= m < n {
        lemma_power_of_two_gap(m, n);
        lemma_layers_forward(b, p, 2 * m);
        let deeper = backward_from(b, p, 2 * m, n);
        lemma_layer_forward(deeper, p, m);
    }
}

/// Transforming back and transforming again gives the transform again.
pub proof fn lemma_ntt_roundtrip_back(b: Seq<u64>, p: int)
    requires
        ntt_feasible(p, b.len() as int),
        reduced(b, p),
    ensures
        ntt_backward(b, p).len() == b.len(),
        reduced(ntt_backward(b, p), p),
        ntt_forward(ntt_backward(b, p), p) == b,
{
    lemma_layers_forward(b, p, 1);
}

/// Whether `n` is a power of two.
pub fn is_power_of_two(n: usize) -> (r: bool)
    ensures
        r == power_of_two(n as int),
{
    let mut m: usize = n;
    if m == 0 {
        return false;
    }
    while m % 2 == 0
        invariant
            m > 0,
            power_of_two(m as int) == power_of_two(n as int),
        decreases m,
    {
        m = m / 2;
    }
    m == 1
}

/// Whether `p` is a prime that is congruent to 1 modulo `2n`.
pub fn supports_ntt(p: u64, n: usize) -> (r: bool)
    requires
        degree_ok(n as int),
    ensures
        r == supports_ntt_spec(p as int, n as int),
{
    if n as u64 > p / 2 {
        proof {
            if 2 * n > p {
                lemma_small_mod(p as nat, (2 * n) as nat);
            } else {
                lemma_fundamental_div_mod_converse(p as int, 2 * n, 1, 0);
            }
            if p == 1 {
                assert(!is_prime(1));
            }
        }
        false
    } else {
        p % (2 * (n as u64)) == 1 && prime_word(p)
    }
}

/// The table of bit-reversed indices below `n`.
pub fn bit_reverse_table(n: usize) -> (r: Vec<usize>)
    requires
        degree_ok(n as int),
    ensures
        r@.len() == n,
        forall|k: int| 0 <= k < n ==> (#[trigger] r@[k]) == bit_reverse(k as nat, n as nat),
{
    let mut table: Vec<usize> = Vec::with_capacity(n);
    table.push(0);
    table.push(n / 2);
    let mut k: usize = 2;
    while k < n
        invariant
            2 <= k <= n,
            n % 2 == 0,
            table@.len() == k,
            forall|j: int| 0 <= j < k ==> (#[trigger] table@[j]) == bit_reverse(j as nat, n as nat),
        decreases n - k,
    {
        proof {
            lemma_bit_reverse_bound((k / 2) as nat, n as nat);
            if k % 2 == 1 {
                assert((k % 2) * (n / 2) == n / 2) by (nonlinear_arith)
                    requires
                        k % 2 == 1,
                ;
            } else {
                assert((k % 2) * (n / 2) == 0) by (nonlinear_arith)
                    requires
                        k % 2 == 0,
                ;
            }
        }
        let shift: usize = if k % 2 == 1 {
            n / 2
        } else {
            0
        };
        table.push(table[k / 2] / 2 + shift);
        k += 1;
    }
    table
}

/// The transform of one size modulo one prime, with its tables of factors.
#[derive(Debug)]
pub struct NttOperator {
    q: Modulus,
    size: usize,
    factors: Vec<u64>,
    factors_inv: Vec<u64>,
    half: u64,
}

impl NttOperator {
    /// The prime of the transform.
    pub closed spec fn modulus(&self) -> int {
        self.q.value()
    }

    /// The size of the transform.
    pub closed spec fn size(&self) -> int {
        self.size as int
    }

    /// The invariant of the type: the transform is feasible, and the tables hold
    /// the factors that belong to the prime and the size.
    pub closed spec fn wf(&self) -> bool {
        let p = self.q.value();
        let n = self.size as int;
        &&& self.q.wf()
        &&& ntt_feasible(p, n)
        &&& self.half == half_of(p)
        &&& self.factors@.len() == n
        &&& self.factors_inv@.len() == n
        &&& forall|k: int| 0 <= k < n ==> (#[trigger] self.factors@[k]) == twiddle(p, n, k)
        &&& forall|k: int| 0 <= k < n ==> (#[trigger] self.factors_inv@[k]) == twiddle_inv(p, n, k)
    }

    /// Builds the transform of size `n` modulo the modulus `q`, where there is one.
    pub fn new(q: &Modulus, n: usize) -> (r: Option<NttOperator>)
        requires
            q.wf(),
        ensures
            r is Some <==> ntt_feasible(q.value(), n as int),
            r is Some ==> r->Some_0.wf() && r->Some_0.modulus() == q.value() && r->Some_0.size()
                == n,
    {
        if n < 8 || !is_power_of_two(n) {
            return None;
        }
        let p: u64 = q.modulus();
        if !supports_ntt(p, n) {
            return None;
        }
        assert(2 * n <= p) by {
            if 2 * n > p {
                lemma_small_mod(p as nat, (2 * n) as nat);
            }
        }
        let exponent: u64 = (p - 1) / (2 * (n as u64));
        let mut g: u64 = 2;
        let mut root: u64 = 0;
        let mut found: bool = false;
        while g < p && !found
            invariant
                q.wf(),
                p == q.value(),
                2 * n <= p,
                2 <= g <= p,
                exponent == (p - 1) / (2 * n),
                !found ==> first_generator(p as int, n as int, g as int) == first_generator(
                    p as int,
                    n as int,
                    2,
                ),
                found ==> first_generator(p as int, n as int, 2) < p && root == ntt_root(
                    p as int,
                    n as int,
                ),
            decreases p - g + (if found { 0int } else { 1int }),
        {
            let candidate: u64 = q.pow(g, exponent);
            if q.pow(candidate, n as u64) == p - 1 {
                root = candidate;
                found = true;
            } else {
                g += 1;
            }
        }
        // modulo a prime that supports the transform, the search has found a root
        assert(found) by {
            lemma_generator_exists(p as int, n as int);
        }
        let ghost pi = p as int;
        let ghost ni = n as int;
        let root_inv: u64 = q.pow(root, 2 * (n as u64) - 1);
        let half: u64 = (p + 1) / 2;
        let reversed: Vec<usize> = bit_reverse_table(n);
        // the powers of the root and of its inverse, in natural order
        let mut powers: Vec<u64> = Vec::with_capacity(n);
        let mut powers_inv: Vec<u64> = Vec::with_capacity(n);
        powers.push(1);
        powers_inv.push(1);
        proof {
            lemma_pow0(root as int);
            lemma_pow0(root_inv as int);
            lemma_small_mod(1, p as nat);
        }
        let mut e: usize = 1;
        while e < n
            invariant
                q.wf(),
                p == q.value(),
                pi == p,
                root < p,
                root_inv < p,
                1 <= e <= n,
                powers@.len() == e,
                powers_inv@.len() == e,
                forall|j: int|
                    0 <= j < e ==> (#[trigger] powers@[j]) == pow_mod(root as int, j as nat, pi),
                forall|j: int|
                    0 <= j < e ==> (#[trigger] powers_inv@[j]) == pow_mod(
                        root_inv as int,
                        j as nat,
                        pi,
                    ),
            decreases n - e,
        {
            proof {
                lemma_pow_mod_succ(root as int, (e - 1) as nat, pi);
                lemma_pow_mod_succ(root_inv as int, (e - 1) as nat, pi);
                lemma_mod_bound(pow(root as int, (e - 1) as nat), pi);
                lemma_mod_bound(pow(root_inv as int, (e - 1) as nat), pi);
            }
            let next: u64 = q.mul(powers[e - 1], root);
            let next_inv: u64 = q.mul(powers_inv[e - 1], root_inv);
            powers.push(next);
            powers_inv.push(next_inv);
            e += 1;
        }
        let mut factors: Vec<u64> = Vec::with_capacity(n);
        let mut factors_inv: Vec<u64> = Vec::with_capacity(n);
        let mut k: usize = 0;
        while k < n
            invariant
                q.wf(),
                p == q.value(),
                pi == p,
                ni == n,
                n >= 8,
                n % 2 == 0,
                half == half_of(pi),
                half < p,
                root == ntt_root(pi, ni),
                root_inv == ntt_root_inv(pi, ni),
                0 <= k <= n,
                powers@.len() == n,
                powers_inv@.len() == n,
                reversed@.len() == n,
                forall|j: int|
                    0 <= j < n ==> (#[trigger] reversed@[j]) == bit_reverse(j as nat, n as nat),
                forall|j: int|
                    0 <= j < n ==> (#[trigger] powers@[j]) == pow_mod(root as int, j as nat, pi),
                forall|j: int|
                    0 <= j < n ==> (#[trigger] powers_inv@[j]) == pow_mod(
                        root_inv as int,
                        j as nat,
                        pi,
                    ),
                factors@.len() == k,
                factors_inv@.len() == k,
                forall|j: int| 0 <= j < k ==> (#[trigger] factors@[j]) == twiddle(pi, ni, j),
                forall|j: int|
                    0 <= j < k ==> (#[trigger] factors_inv@[j]) == twiddle_inv(pi, ni, j),
            decreases n - k,
        {
            proof {
                lemma_bit_reverse_bound(k as nat, n as nat);
                lemma_mod_bound(pow(root_inv as int, bit_reverse(k as nat, n as nat)), pi);
            }
            let at: usize = reversed[k];
            factors.push(powers[at]);
            factors_inv.push(q.mul(half, powers_inv[at]));
            k += 1;
        }
        Some(NttOperator { q: *q, size: n, factors, factors_inv, half })
    }

    /// Replaces the coefficients `a` by their transform.
    pub fn forward(&self, a: &mut [u64])
        requires
            self.wf(),
            old(a)@.len() == self.size(),
            reduced(old(a)@, self.modulus()),
        ensures
            final(a)@.len() == old(a)@.len(),
            final(a)@ == ntt_forward(old(a)@, self.modulus()),
            reduced(final(a)@, self.modulus()),
    {
        let n: usize = self.size;
        let h: usize = n / 2;
        let ghost p = self.q.value();
        let mut scratch: Vec<u64> = Vec::with_capacity(n);
        let mut m: usize = 1;
        while m < n
            invariant
                self.wf(),
                n == self.size,
                h == n / 2,
                p == self.q.value(),
                power_of_two(m as int),
                1 <= m <= n,
                a@.len() == n,
                reduced(a@, p),
                forward_from(a@, p, m as int, n as int) == ntt_forward(old(a)@, p),
            decreases n - m,
        {
            proof {
                lemma_power_of_two_gap(m as int, n as int);
            }
            scratch.clear();
            let mut j: usize = 0;
            while j < h
                invariant
                    self.wf(),
                    n == self.size,
                    h == n / 2,
                    n % 2 == 0,
                    p == self.q.value(),
                    1 <= m,
                    2 * m <= n,
                    a@.len() == n,
                    reduced(a@, p),
                    0 <= j <= h,
                    scratch@.len() == 2 * j,
                    forall|i: int|
                        0 <= i < 2 * j ==> (#[trigger] scratch@[i]) == forward_layer(
                            a@,
                            p,
                            m as int,
                        )[i],
                    forall|i: int| 0 <= i < 2 * j ==> (#[trigger] scratch@[i]) < p,
                decreases h - j,
            {
                proof {
                    lemma_mod_bound(j as int, m as int);
                    lemma_twiddle_bounds(p, n as int, m + j % m);
                }
                let w: u64 = self.factors[m + j % m];
                let u: u64 = a[j];
                let t: u64 = self.q.mul(w, a[j + h]);
                scratch.push(self.q.add(u, t));
                scratch.push(self.q.sub(u, t));
                j += 1;
            }
            let ghost before = a@;
            let mut i: usize = 0;
            while i < n
                invariant
                    0 <= i <= n,
                    a@.len() == n,
                    scratch@.len() == n,
                    forall|k: int| 0 <= k < i ==> (#[trigger] a@[k]) == scratch@[k],
                decreases n - i,
            {
                a[i] = scratch[i];
                i += 1;
            }
            assert(a@ =~= forward_layer(before, p, m as int));
            m = 2 * m;
        }
        wipe_words(scratch.as_mut_slice());
    }

    /// Replaces the transform `a` by the coefficients that it belongs to.
    pub fn backward(&self, a: &mut [u64])
        requires
            self.wf(),
            old(a)@.len() == self.size(),
            reduced(old(a)@, self.modulus()),
        ensures
            final(a)@.len() == old(a)@.len(),
            final(a)@ == ntt_backward(old(a)@, self.modulus()),
            reduced(final(a)@, self.modulus()),
    {
        let n: usize = self.size;
        let h: usize = n / 2;
        let ghost p = self.q.value();
        let mut scratch: Vec<u64> = Vec::with_capacity(n);
        let mut m: usize = n;
        while m > 1
            invariant
                self.wf(),
                n == self.size,
                h == n / 2,
                p == self.q.value(),
                power_of_two(m as int),
                1 <= m <= n,
                a@.len() == n,
                reduced(a@, p),
                a@ == backward_from(old(a)@, p, m as int, n as int),
            decreases m,
        {
            m = m / 2;
            scratch.clear();
            let mut j: usize = 0;
            while j < h
                invariant
                    self.wf(),
                    n == self.size,
                    h == n / 2,
                    n % 2 == 0,
                    p == self.q.value(),
                    a@.len() == n,
                    reduced(a@, p),
                    0 <= j <= h,
                    scratch@.len() == j,
                    forall|i: int|
                        0 <= i < j ==> (#[trigger] scratch@[i]) == backward_layer(
                            a@,
                            p,
                            m as int,
                        )[i],
                    forall|i: int| 0 <= i < j ==> (#[trigger] scratch@[i]) < p,
                decreases h - j,
            {
                let s: u64 = self.q.add(a[2 * j], a[2 * j + 1]);
                scratch.push(self.q.mul(s, self.half));
                j += 1;
            }
            j = 0;
            while j < h
                invariant
                    self.wf(),
                    n == self.size,
                    h == n / 2,
                    n % 2 == 0,
                    p == self.q.value(),
                    1 <= m,
                    2 * m <= n,
                    a@.len() == n,
                    reduced(a@, p),
                    0 <= j <= h,
                    scratch@.len() == h + j,
                    forall|i: int|
                        0 <= i < h + j ==> (#[trigger] scratch@[i]) == backward_layer(
                            a@,
                            p,
                            m as int,
                        )[i],
                    forall|i: int| 0 <= i < h + j ==> (#[trigger] scratch@[i]) < p,
                decreases h - j,
            {
                proof {
                    lemma_mod_bound(j as int, m as int);
                    lemma_twiddle_bounds(p, n as int, m + j % m);
                }
                let w: u64 = self.factors_inv[m + j % m];
                let d: u64 = self.q.sub(a[2 * j], a[2 * j + 1]);
                scratch.push(self.q.mul(d, w));
                j += 1;
            }
            let ghost before = a@;
            let mut i: usize = 0;
            while i < n
                invariant
                    0 <= i <= n,
                    a@.len() == n,
                    scratch@.len() == n,
                    forall|k: int| 0 <= k < i ==> (#[trigger] a@[k]) == scratch@[k],
                decreases n - i,
            {
                a[i] = scratch[i];
                i += 1;
            }
            assert(a@ =~= backward_layer(before, p, m as int));
        }
        wipe_words(scratch.as_mut_slice());
    }
}

} // verus!
