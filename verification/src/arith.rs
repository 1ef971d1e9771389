//! Mathematical vocabulary shared by the whole crate: residues, powers, greatest
//! common divisors and primes, together with the lemmas the proofs lean on.
use vstd::arithmetic::div_mod::*;
use vstd::arithmetic::mul::*;
use vstd::arithmetic::power::*;
use vstd::prelude::*;

verus! {

/// `2^62`: every modulus is strictly below this bound.
pub open spec fn modulus_bound() -> int {
    0x4000_0000_0000_0000
}

/// `2^64`, the scale of a Shoup encoding.
pub open spec fn word() -> int {
    0x1_0000_0000_0000_0000
}

/// A modulus that fits the arithmetic of this crate: at least 2 and below `2^62`.
pub open spec fn modulus_ok(p: int) -> bool {
    2 <= p < modulus_bound()
}

/// The sum of two residues.
pub open spec fn add_mod(a: int, b: int, p: int) -> int {
    (a + b) % p
}

/// The difference of two residues.
pub open spec fn sub_mod(a: int, b: int, p: int) -> int {
    (a - b) % p
}

/// The opposite of a residue.
pub open spec fn neg_mod(a: int, p: int) -> int {
    (-a) % p
}

/// The product of two residues.
pub open spec fn mul_mod(a: int, b: int, p: int) -> int {
    (a * b) % p
}

/// `b^e` reduced modulo `p`.
pub open spec fn pow_mod(b: int, e: nat, p: int) -> int {
    pow(b, e) % p
}

/// The Shoup encoding of `a` modulo `p`: `floor(a * 2^64 / p)`, kept to 64 bits.
pub open spec fn shoup_of(a: int, p: int) -> int {
    ((a * word()) / p) % word()
}

/// Every entry of `a` is a residue modulo `p`.
pub open spec fn reduced(a: Seq<u64>, p: int) -> bool {
    forall|i: int| 0 <= i < a.len() ==> (#[trigger] a[i]) < p
}

/// Entry by entry, `b` holds the Shoup encoding of `a`.
pub open spec fn shoup_pairs(a: Seq<u64>, b: Seq<u64>, p: int) -> bool {
    &&& a.len() == b.len()
    &&& forall|i: int| 0 <= i < a.len() ==> (#[trigger] b[i]) == shoup_of(a[i] as int, p)
}

/// `n` is a power of two.
pub open spec fn power_of_two(n: int) -> bool
    decreases n,
{
    if n <= 0 {
        false
    } else if n == 1 {
        true
    } else {
        n % 2 == 0 && power_of_two(n / 2)
    }
}

/// A ring dimension that the library accepts: a power of two, at least 8.
pub open spec fn degree_ok(n: int) -> bool {
    n >= 8 && power_of_two(n)
}

/// The index `k < n` with its `log2(n)` bits in reverse order, for a power of
/// two `n`: the reversal of `2k` is half that of `k`, and that of `2k + 1` lies
/// `n / 2` above it.
pub open spec fn bit_reverse(k: nat, n: nat) -> nat
    decreases k,
{
    if k == 0 {
        0
    } else if k == 1 {
        n / 2
    } else {
        bit_reverse(k / 2, n) / 2 + (k % 2) * (n / 2)
    }
}

/// The greatest common divisor, by Euclid's recursion.
pub open spec fn gcd(a: nat, b: nat) -> nat
    decreases b,
{
    if b == 0 {
        a
    } else {
        gcd(b, a % b)
    }
}

/// `d` divides `n`.
pub open spec fn divides(d: int, n: int) -> bool {
    d != 0 && n % d == 0
}

/// `p` is a prime number.
pub open spec fn is_prime(p: int) -> bool {
    p >= 2 && forall|d: int| 1 < d < p ==> !#[trigger] divides(d, p)
}

/// A product of two factors is below the product of their strict bounds.
pub proof fn lemma_mul_lt(a: int, b: int, x: int, y: int)
    by (nonlinear_arith)
    requires
        0 <= a < x,
        0 <= b < y,
    ensures
        0 <= a * b < x * y,
{
}

/// A product of two factors is at most the product of their bounds.
pub proof fn lemma_mul_le(a: int, b: int, x: int, y: int)
    by (nonlinear_arith)
    requires
        0 <= a <= x,
        0 <= b <= y,
    ensures
        0 <= a * b <= x * y,
{
}

/// The gcd divides both of its arguments.
pub proof fn lemma_gcd_divides(a: nat, b: nat)
    requires
        a > 0 || b > 0,
    ensures
        gcd(a, b) > 0,
        a % gcd(a, b) == 0,
        b % gcd(a, b) == 0,
    decreases b,
{
    if b == 0 {
        lemma_mod_self_0(a as int);
    } else {
        lemma_gcd_divides(b, a % b);
        let g = gcd(a, b) as int;
        let q = (a / b) as int;
        let r = (a % b) as int;
        lemma_fundamental_div_mod(a as int, b as int);
        // a = b * q + r, and g divides b and r
        lemma_mod_multiples_vanish_any(b as int, q, r, g);
    }
}

/// Adding a multiple of a multiple of `g` does not change a residue modulo `g`.
pub proof fn lemma_mod_multiples_vanish_any(b: int, q: int, r: int, g: int)
    requires
        g > 0,
        b % g == 0,
    ensures
        (b * q + r) % g == r % g,
{
    lemma_fundamental_div_mod(b, g);
    let k = b / g;
    assert(b == g * k);
    assert(b * q == g * (k * q)) by {
        lemma_mul_is_associative(g, k, q);
    }
    lemma_mul_is_commutative(g, k * q);
    lemma_mod_multiples_vanish(k * q, r, g);
}

/// A prime is coprime to every smaller positive number.
pub proof fn lemma_prime_gcd(p: nat, a: nat)
    requires
        is_prime(p as int),
        0 < a < p,
    ensures
        gcd(p, a) == 1,
{
    lemma_gcd_divides(p, a);
    let g = gcd(p, a) as int;
    if g != 1 {
        lemma_mod_is_zero(a, g as nat);
        assert(g <= a);
        assert(divides(g, p as int));
    }
}

/// Congruent factors give congruent products.
pub proof fn lemma_cong_mul(x: int, y: int, c: int, p: int)
    requires
        p > 0,
        x % p == y % p,
    ensures
        (x * c) % p == (y * c) % p,
        (c * x) % p == (c * y) % p,
{
    lemma_mul_mod_noop_left(x, c, p);
    lemma_mul_mod_noop_left(y, c, p);
    lemma_mul_is_commutative(x, c);
    lemma_mul_is_commutative(y, c);
}

/// Congruent terms give congruent sums and differences.
pub proof fn lemma_cong_add_sub(x: int, y: int, u: int, v: int, p: int)
    requires
        p > 0,
        x % p == y % p,
        u % p == v % p,
    ensures
        (x + u) % p == (y + v) % p,
        (x - u) % p == (y - v) % p,
{
    lemma_add_mod_noop(x, u, p);
    lemma_add_mod_noop(y, v, p);
    lemma_sub_mod_noop(x, u, p);
    lemma_sub_mod_noop(y, v, p);
}

/// Congruent factors on both sides give congruent products.
pub proof fn lemma_cong_mul2(x: int, y: int, u: int, v: int, p: int)
    requires
        p > 0,
        x % p == y % p,
        u % p == v % p,
    ensures
        (x * u) % p == (y * v) % p,
{
    lemma_mul_mod_noop(x, u, p);
    lemma_mul_mod_noop(y, v, p);
}

/// One round of square-and-multiply keeps `result * base^k` fixed modulo `p`.
pub proof fn lemma_pow_step(result: int, base: int, k: nat, p: int)
    requires
        p > 0,
        k > 0,
    ensures
        ({
            let r2 = if k % 2 == 1 { (result * base) % p } else { result };
            (r2 * pow((base * base) % p, k / 2)) % p == (result * pow(base, k)) % p
        }),
{
    let h = k / 2;
    let sq = (base * base) % p;
    let r2 = if k % 2 == 1 { (result * base) % p } else { result };
    lemma_square_is_pow2(base);
    lemma_pow_multiplies(base, 2, h);
    assert(pow(base * base, h) == pow(base, 2 * h));
    lemma_pow_mod_noop(base * base, h, p);
    assert(pow(sq, h) % p == pow(base, 2 * h) % p);
    if k % 2 == 1 {
        assert(k == 2 * h + 1);
        lemma_pow_adds(base, 1, 2 * h);
        lemma_pow1(base);
        assert(pow(base, k) == base * pow(base, 2 * h));
        lemma_mod_twice(result * base, p);
        lemma_cong_mul2(r2, result * base, pow(sq, h), pow(base, 2 * h), p);
        lemma_mul_is_associative(result, base, pow(base, 2 * h));
    } else {
        assert(k == 2 * h);
        lemma_cong_mul2(r2, result, pow(sq, h), pow(base, 2 * h), p);
    }
}

/// One round of Euclid's algorithm on the cofactor of `a`.
pub proof fn lemma_euclid_step(t0: int, t1: int, q: int, a: int, r0: int, r1: int, p: int)
    requires
        p > 0,
        (t0 * a) % p == r0 % p,
        (t1 * a) % p == r1 % p,
    ensures
        (sub_mod(t0, mul_mod(q % p, t1, p), p) * a) % p == (r0 - q * r1) % p,
{
    let m = mul_mod(q % p, t1, p);
    let t2 = sub_mod(t0, m, p);
    // m is congruent to q * t1
    lemma_mul_mod_noop_left(q, t1, p);
    lemma_mod_twice(q * t1, p);
    assert(m % p == (q * t1) % p);
    // m * a is congruent to q * r1
    lemma_cong_mul(m, q * t1, a, p);
    lemma_mul_is_associative(q, t1, a);
    lemma_cong_mul(t1 * a, r1, q, p);
    assert((m * a) % p == (q * r1) % p);
    // t2 * a is congruent to t0 * a - m * a
    lemma_mod_twice(t0 - m, p);
    lemma_cong_mul(t2, t0 - m, a, p);
    lemma_mul_is_distributive_sub_other_way(a, t0, m);
    assert((t0 - m) * a == t0 * a - m * a);
    lemma_cong_add_sub(t0 * a, r0, m * a, q * r1, p);
}

/// A reversed index stays below `n`.
pub proof fn lemma_bit_reverse_bound(k: nat, n: nat)
    requires
        n >= 2,
        n % 2 == 0,
    ensures
        bit_reverse(k, n) < n,
    decreases k,
{
    if k >= 2 {
        lemma_bit_reverse_bound(k / 2, n);
        if k % 2 == 1 {
            assert((k % 2) * (n / 2) == n / 2) by (nonlinear_arith)
                requires
                    k % 2 == 1,
            ;
        } else {
            assert((k % 2) * (n / 2) == 0) by (nonlinear_arith)
                requires
                    k % 2 == 0,
            ;
        }
    }
}

/// Multiplying a power by its base raises the exponent by one, also modulo `p`.
pub proof fn lemma_pow_mod_succ(b: int, e: nat, p: int)
    requires
        p > 0,
    ensures
        pow_mod(b, e + 1, p) == mul_mod(pow_mod(b, e, p), b, p),
{
    lemma_pow_adds(b, e, 1);
    lemma_pow1(b);
    lemma_mul_mod_noop_left(pow(b, e), b, p);
}

/// Powers of two elements whose product is congruent to 1 are inverse to each other.
pub proof fn lemma_pow_inverse(b: int, c: int, e: nat, p: int)
    requires
        p > 1,
        mul_mod(b, c, p) == 1,
    ensures
        mul_mod(pow_mod(b, e, p), pow_mod(c, e, p), p) == 1,
{
    lemma_mul_mod_noop(pow(b, e), pow(c, e), p);
    lemma_pow_distributes(b, c, e);
    lemma_pow_mod_noop(b * c, e, p);
    lemma1_pow(e);
    lemma_small_mod(1, p as nat);
}

/// An element whose `n`-th power is congruent to -1 has `2n`-th power congruent to 1.
pub proof fn lemma_root_order(b: int, n: nat, p: int)
    requires
        p > 1,
        n >= 1,
        pow_mod(b, n, p) == p - 1,
    ensures
        pow_mod(b, 2 * n, p) == 1,
        mul_mod(b, pow_mod(b, (2 * n - 1) as nat, p), p) == 1,
{
    lemma_pow_adds(b, n, n);
    lemma_mul_mod_noop(pow(b, n), pow(b, n), p);
    assert((p - 1) * (p - 1) == p * (p - 2) + 1) by (nonlinear_arith);
    lemma_mod_multiples_vanish(p - 2, 1, p);
    lemma_small_mod(1, p as nat);
    lemma_pow_adds(b, 1, (2 * n - 1) as nat);
    lemma_pow1(b);
    lemma_mul_mod_noop_right(b, pow(b, (2 * n - 1) as nat), p);
}

/// Of two powers of two, the larger is at least twice the smaller.
pub proof fn lemma_power_of_two_gap(a: int, b: int)
    requires
        power_of_two(a),
        power_of_two(b),
        a < b,
    ensures
        2 * a <= b,
    decreases b,
{
    if a > 1 {
        lemma_power_of_two_gap(a / 2, b / 2);
    }
}

/// A positive divisor of a prime is 1 or the prime.
pub proof fn lemma_prime_divisor(p: int, d: int)
    requires
        is_prime(p),
        d > 0,
        p % d == 0,
    ensures
        d == 1 || d == p,
{
    lemma_mod_is_zero(p as nat, d as nat);
    if 1 < d < p {
        assert(divides(d, p));
    }
}

/// Bezout: the gcd of two numbers is a combination of them.
pub proof fn lemma_bezout(a: nat, b: nat) -> (r: (int, int))
    ensures
        a * r.0 + b * r.1 == gcd(a, b),
    decreases b,
{
    if b == 0 {
        (1, 0)
    } else {
        let (x, y) = lemma_bezout(b, a % b);
        let k = (a / b) as int;
        lemma_fundamental_div_mod(a as int, b as int);
        assert(a * y + b * (x - k * y) == b * x + (a % b) * y) by (nonlinear_arith)
            requires
                a == b * k + a % b,
        ;
        (y, x - k * y)
    }
}

/// Euclid: a prime that divides a product divides one of the factors.
pub proof fn lemma_euclid(q: int, a: int, b: int)
    requires
        is_prime(q),
        a >= 0,
        b >= 0,
        (a * b) % q == 0,
    ensures
        a % q == 0 || b % q == 0,
{
    if a % q != 0 {
        let g = gcd(a as nat, q as nat) as int;
        lemma_gcd_divides(a as nat, q as nat);
        lemma_prime_divisor(q, g);
        assert(g == 1);
        let (x, y) = lemma_bezout(a as nat, q as nat);
        assert(b == (a * b) * x + q * (b * y)) by (nonlinear_arith)
            requires
                a * x + q * y == 1,
        ;
        lemma_mul_mod_noop_left(a * b, x, q);
        lemma_mul_basics(x);
        lemma_small_mod(0, q as nat);
        assert(((a * b) * x) % q == 0);
        lemma_mod_multiples_vanish(b * y, (a * b) * x, q);
    }
}

/// A number that two coprime numbers divide is divided by their product.
pub proof fn lemma_coprime_product_divides(a: nat, b: nat, d: nat)
    requires
        a > 0,
        b > 0,
        d % a == 0,
        d % b == 0,
        gcd(a, b) == 1,
    ensures
        d % (a * b) == 0,
{
    let (s, t) = lemma_bezout(a, b);
    lemma_fundamental_div_mod(d as int, a as int);
    lemma_fundamental_div_mod(d as int, b as int);
    let ka = (d / a) as int;
    let kb = (d / b) as int;
    assert(d == a * ka);
    assert(d == b * kb);
    // d == d * (a * s + b * t) == (a * b) * (kb * s + ka * t)
    assert(d == d * (a * s) + d * (b * t)) by (nonlinear_arith)
        requires
            a * s + b * t == 1,
    ;
    assert(d * (a * s) == (a * b) * (kb * s)) by (nonlinear_arith)
        requires
            d == b * kb,
    ;
    assert(d * (b * t) == (a * b) * (ka * t)) by (nonlinear_arith)
        requires
            d == a * ka,
    ;
    assert(d == (a * b) * (kb * s + ka * t)) by (nonlinear_arith)
        requires
            d == d * (a * s) + d * (b * t),
            d * (a * s) == (a * b) * (kb * s),
            d * (b * t) == (a * b) * (ka * t),
    ;
    lemma_mul_strictly_positive(a as int, b as int);
    lemma_mod_multiples_basic(kb * s + ka * t, (a * b) as int);
    lemma_mul_is_commutative((a * b) as int, kb * s + ka * t);
}

} // verus!
