//! The product in `Z_p[X] / (X^n + 1)`, and why the transform turns it into the
//! product entry by entry: the transform evaluates at roots of `X^n + 1`, and
//! the value of a product is the product of the values.
use crate::arith::{
    lemma_cong_add_sub, lemma_cong_mul, lemma_cong_mul2, mul_mod, neg_mod, power_of_two, reduced,
};
use crate::evaluation::{
    block_root, lemma_block_root, lemma_block_root_bounds, lemma_forward_evaluates,
    lemma_pow_square, point, strided, value_at,
};
use crate::ntt::{lemma_ntt_roundtrip, ntt_backward, ntt_feasible, ntt_forward, twiddle};
use vstd::arithmetic::div_mod::*;
use vstd::arithmetic::mul::*;
use vstd::arithmetic::power::*;
use vstd::prelude::*;

verus! {

/// The polynomial `b` times `X`, modulo `X^n + 1` and `p`: the coefficients
/// move up by one, and the last comes back as the first with its sign changed.
pub open spec fn times_x(b: Seq<u64>, p: int) -> Seq<u64> {
    Seq::new(
        b.len(),
        |k: int|
            if k == 0 {
                neg_mod(b[b.len() - 1] as int, p) as u64
            } else {
                b[k - 1]
            },
    )
}

/// The polynomial `acc + coef * b`, modulo `p`.
pub open spec fn scaled_sum(acc: Seq<u64>, coef: int, b: Seq<u64>, p: int) -> Seq<u64> {
    Seq::new(b.len(), |k: int| ((acc[k] + coef * b[k]) % p) as u64)
}

/// The polynomial `(a[i] + a[i + 1] * X + ...) * b`, modulo `X^n + 1` and `p`.
pub open spec fn product_from(a: Seq<u64>, b: Seq<u64>, p: int, i: int) -> Seq<u64>
    decreases a.len() - i,
{
    if i < 0 || i >= a.len() {
        Seq::new(b.len(), |k: int| 0u64)
    } else {
        scaled_sum(times_x(product_from(a, b, p, i + 1), p), a[i] as int, b, p)
    }
}

/// The product of the polynomials `a` and `b` in `Z_p[X] / (X^n + 1)`.
pub open spec fn ring_product(a: Seq<u64>, b: Seq<u64>, p: int) -> Seq<u64> {
    product_from(a, b, p, 0)
}

/// The value at `x` of `a[i] + a[i + 1] * X + ...`, by Horner's rule.
pub open spec fn horner(a: Seq<u64>, x: int, i: int) -> int
    decreases a.len() - i,
{
    if i < 0 || i >= a.len() {
        0
    } else {
        a[i] + x * horner(a, x, i + 1)
    }
}

/// The sum of the first `i` terms of a polynomial, and `x^i` times the value
/// of the rest by Horner's rule, are the value of the polynomial.
pub proof fn lemma_horner(a: Seq<u64>, x: int, i: nat)
    requires
        i <= a.len(),
    ensures
        strided(a, 0, 1, x, i) + pow(x, i) * horner(a, x, i as int) == horner(a, x, 0),
    decreases i,
{
    if i == 0 {
        lemma_pow0(x);
        lemma_mul_basics(horner(a, x, 0));
    } else {
        let j = (i - 1) as nat;
        lemma_horner(a, x, j);
        lemma_pow_adds(x, j, 1);
        lemma_pow1(x);
        assert(0 + j * 1 == j);
        let rest = horner(a, x, i as int);
        assert(horner(a, x, j as int) == a[j as int] + x * rest);
        assert(pow(x, j) * (a[j as int] + x * rest) == a[j as int] * pow(x, j) + (pow(x, j) * x)
            * rest) by (nonlinear_arith);
    }
}

/// The sums of the terms of `X * b` are those of `b`, times `x`, and the
/// first coefficient.
pub proof fn lemma_times_x_sum(b: Seq<u64>, p: int, x: int, count: nat)
    requires
        1 <= count <= b.len(),
    ensures
        strided(times_x(b, p), 0, 1, x, count) == times_x(b, p)[0] + x * strided(
            b,
            0,
            1,
            x,
            (count - 1) as nat,
        ),
    decreases count,
{
    let c = times_x(b, p);
    if count == 1 {
        lemma_pow0(x);
        assert(0 + 0 * 1 == 0);
        assert(strided(c, 0, 1, x, 0) == 0);
        assert(strided(b, 0, 1, x, 0) == 0);
        lemma_mul_basics(x);
        lemma_mul_basics(c[0] as int);
    } else {
        let j = (count - 1) as nat;
        lemma_times_x_sum(b, p, x, j);
        assert(0 + j * 1 == j);
        assert(0 + (j - 1) * 1 == j - 1);
        assert(c[j as int] == b[j - 1]);
        lemma_pow_adds(x, 1, (j - 1) as nat);
        lemma_pow1(x);
        let before = strided(b, 0, 1, x, (j - 1) as nat);
        let term = b[j - 1] as int;
        assert(x * (before + term * pow(x, (j - 1) as nat)) == x * before + term * (x * pow(
            x,
            (j - 1) as nat,
        ))) by (nonlinear_arith);
    }
}

/// At a root `x` of `X^n + 1`, the value of `X * b` is `x` times that of `b`.
pub proof fn lemma_times_x(b: Seq<u64>, p: int, x: int)
    requires
        1 < p <= u64::MAX,
        b.len() >= 1,
        pow(x, b.len()) % p == p - 1,
    ensures
        value_at(times_x(b, p), x) % p == (x * value_at(b, x)) % p,
{
    let n = b.len();
    let c = times_x(b, p);
    let last = b[n - 1] as int;
    let before = strided(b, 0, 1, x, (n - 1) as nat);
    lemma_times_x_sum(b, p, x, n);
    assert(0 + (n - 1) * 1 == n - 1);
    assert(value_at(b, x) == before + last * pow(x, (n - 1) as nat));
    lemma_pow_adds(x, 1, (n - 1) as nat);
    lemma_pow1(x);
    // x * value(b) == x * before + last * x^n, and x^n is -1
    assert(x * (before + last * pow(x, (n - 1) as nat)) == x * before + last * pow(x, n))
        by (nonlinear_arith)
        requires
            pow(x, n) == x * pow(x, (n - 1) as nat),
    ;
    lemma_small_mod((p - 1) as nat, p as nat);
    lemma_cong_mul(pow(x, n), p - 1, last, p);
    assert(last * (p - 1) == last * p - last) by (nonlinear_arith);
    lemma_mod_multiples_vanish(last, -last, p);
    lemma_mul_is_commutative(last, p);
    lemma_mod_twice(-last, p);
    assert((last * pow(x, n)) % p == (c[0] as int) % p);
    lemma_mod_bound(-last, p);
    lemma_cong_add_sub(x * before, x * before, last * pow(x, n), c[0] as int, p);
}

/// The sums of the terms of `acc + coef * b` are those of `acc` and `coef`
/// times those of `b`, modulo `p`.
pub proof fn lemma_scaled_sum(acc: Seq<u64>, coef: int, b: Seq<u64>, p: int, x: int, count: nat)
    requires
        1 < p <= u64::MAX,
        count <= b.len(),
        acc.len() == b.len(),
    ensures
        strided(scaled_sum(acc, coef, b, p), 0, 1, x, count) % p == (strided(acc, 0, 1, x, count)
            + coef * strided(b, 0, 1, x, count)) % p,
    decreases count,
{
    let c = scaled_sum(acc, coef, b, p);
    if count == 0 {
        lemma_mul_basics(coef);
    } else {
        let j = (count - 1) as nat;
        lemma_scaled_sum(acc, coef, b, p, x, j);
        assert(0 + j * 1 == j);
        let e = pow(x, j);
        let u = acc[j as int] as int;
        let v = b[j as int] as int;
        lemma_mod_bound(u + coef * v, p);
        assert(c[j as int] as int == (u + coef * v) % p);
        lemma_mod_twice(u + coef * v, p);
        lemma_cong_mul(c[j as int] as int, u + coef * v, e, p);
        let sa = strided(acc, 0, 1, x, j);
        let sb = strided(b, 0, 1, x, j);
        lemma_cong_add_sub(
            strided(c, 0, 1, x, j),
            sa + coef * sb,
            c[j as int] * e,
            (u + coef * v) * e,
            p,
        );
        assert(sa + coef * sb + (u + coef * v) * e == (sa + u * e) + coef * (sb + v * e))
            by (nonlinear_arith);
    }
}

/// The sums of the terms of the zero polynomial are zero.
pub proof fn lemma_zero_sum(n: nat, x: int, count: nat)
    requires
        count <= n,
    ensures
        strided(Seq::new(n, |k: int| 0u64), 0, 1, x, count) == 0,
    decreases count,
{
    if count > 0 {
        lemma_zero_sum(n, x, (count - 1) as nat);
        assert(0 + (count - 1) * 1 == count - 1);
        lemma_mul_basics(pow(x, (count - 1) as nat));
    }
}

/// At a root `x` of `X^n + 1`, the value of a product is the product of the
/// values.
pub proof fn lemma_product_value(a: Seq<u64>, b: Seq<u64>, p: int, x: int, i: int)
    requires
        1 < p <= u64::MAX,
        a.len() == b.len(),
        b.len() >= 1,
        0 <= i <= a.len(),
        pow(x, b.len()) % p == p - 1,
    ensures
        product_from(a, b, p, i).len() == b.len(),
        reduced(product_from(a, b, p, i), p),
        value_at(product_from(a, b, p, i), x) % p == (horner(a, x, i) * value_at(b, x)) % p,
    decreases a.len() - i,
{
    let n = b.len();
    if i >= a.len() {
        lemma_zero_sum(n, x, n);
        lemma_mul_basics(value_at(b, x));
    } else {
        lemma_product_value(a, b, p, x, i + 1);
        let rest = product_from(a, b, p, i + 1);
        let moved = times_x(rest, p);
        let here = product_from(a, b, p, i);
        let coef = a[i] as int;
        assert(here == scaled_sum(moved, coef, b, p));
        assert forall|k: int| 0 <= k < here.len() implies (#[trigger] here[k]) < p by {
            lemma_mod_bound(moved[k] + coef * b[k], p);
        }
        lemma_times_x(rest, p, x);
        lemma_scaled_sum(moved, coef, b, p, x, n);
        let vb = value_at(b, x);
        let h = horner(a, x, i + 1);
        // value(moved) = x * value(rest) = x * h * value(b)
        lemma_cong_mul(value_at(rest, x), h * vb, x, p);
        assert((value_at(moved, x)) % p == (x * (h * vb)) % p);
        lemma_cong_add_sub(value_at(moved, x), x * (h * vb), coef * vb, coef * vb, p);
        assert(x * (h * vb) + coef * vb == (coef + x * h) * vb) by (nonlinear_arith);
    }
}

/// The power `m` of the root of a block of the layer with `m` blocks is -1.
pub proof fn lemma_block_root_power(p: int, n: int, m: int, c: int)
    requires
        ntt_feasible(p, n),
        power_of_two(m),
        m <= n,
        0 <= c < m,
    ensures
        pow(block_root(p, n, m, c), m as nat) % p == p - 1,
    decreases m,
{
    if m == 1 {
        lemma_pow1(p - 1);
        lemma_small_mod((p - 1) as nat, p as nat);
    } else {
        let half = m / 2;
        let up = c / 2;
        assert(power_of_two(half));
        assert(m == 2 * half);
        lemma_block_root_power(p, n, half, up);
        lemma_block_root(p, n, half, up);
        let s = twiddle(p, n, half + up);
        let r = block_root(p, n, half, up);
        lemma_block_root_bounds(p, n, half, up);
        lemma_small_mod(r as nat, p as nat);
        if c % 2 == 0 {
            assert(c == 2 * up);
            lemma_pow_square(s, r, half as nat, p);
        } else {
            assert(c == 2 * up + 1);
            let opposite = neg_mod(s, p);
            lemma_mod_twice(-s, p);
            lemma_cong_mul2(opposite, -s, opposite, -s, p);
            assert((-s) * (-s) == s * s) by (nonlinear_arith);
            lemma_pow_square(opposite, r, half as nat, p);
        }
    }
}

/// The transform of the product of two polynomials is the product of their
/// transforms, entry by entry: the product in `Ntt` representation is the
/// product of the polynomials in `Z_p[X] / (X^n + 1)`.
pub proof fn lemma_transform_multiplies(a: Seq<u64>, b: Seq<u64>, p: int)
    requires
        ntt_feasible(p, a.len() as int),
        a.len() == b.len(),
        reduced(a, p),
        reduced(b, p),
    ensures
        ring_product(a, b, p).len() == a.len(),
        reduced(ring_product(a, b, p), p),
        ntt_forward(ring_product(a, b, p), p) == Seq::new(
            a.len(),
            |j: int|
                mul_mod(ntt_forward(a, p)[j] as int, ntt_forward(b, p)[j] as int, p) as u64,
        ),
        ntt_backward(
            Seq::new(
                a.len(),
                |j: int|
                    mul_mod(ntt_forward(a, p)[j] as int, ntt_forward(b, p)[j] as int, p) as u64,
            ),
            p,
        ) == ring_product(a, b, p),
{
    let n = a.len() as int;
    let c = ring_product(a, b, p);
    let fa = ntt_forward(a, p);
    let fb = ntt_forward(b, p);
    let fc = ntt_forward(c, p);
    let pointwise = Seq::new(a.len(), |j: int| mul_mod(fa[j] as int, fb[j] as int, p) as u64);
    assert(power_of_two(n));
    lemma_block_root_power(p, n, n, 0);
    lemma_product_value(a, b, p, point(p, n, 0), 0);
    assert(c.len() == n);
    lemma_ntt_roundtrip(c, p);
    assert forall|j: int| 0 <= j < n implies #[trigger] fc[j] == pointwise[j] by {
        let x = point(p, n, j);
        lemma_block_root_power(p, n, n, j);
        lemma_product_value(a, b, p, x, 0);
        lemma_horner(a, x, a.len());
        lemma_mul_basics(pow(x, a.len()));
        assert(horner(a, x, 0) == value_at(a, x));
        lemma_forward_evaluates(a, p, j);
        lemma_forward_evaluates(b, p, j);
        lemma_forward_evaluates(c, p, j);
        lemma_mul_mod_noop(value_at(a, x), value_at(b, x), p);
        lemma_mod_bound(fa[j] * fb[j], p);
    }
    assert(fc =~= pointwise);
}

} // verus!
