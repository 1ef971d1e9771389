//! The transform evaluates: entry `j` of the transform of a polynomial is the
//! value of the polynomial at a root of `X^n + 1` that belongs to `j`.
use crate::arith::{
    add_mod, lemma_cong_add_sub, lemma_cong_mul, lemma_cong_mul2, lemma_power_of_two_gap, mul_mod,
    neg_mod, power_of_two, reduced, sub_mod,
};
use crate::ntt::{
    forward_from, forward_layer, lemma_twiddle_bounds, ntt_feasible, ntt_forward, twiddle,
};
use crate::twiddles::{lemma_power_of_two_divides, lemma_twiddle_square};
use vstd::arithmetic::div_mod::*;
use vstd::arithmetic::mul::*;
use vstd::arithmetic::power::*;
use vstd::prelude::*;

verus! {

/// The residue `r` such that block `c` of the layer with `m` blocks holds a
/// polynomial modulo `X^(n/m) - r`: -1 for the one block of the first layer,
/// and else the factor of the butterfly that made the block, or its opposite.
pub open spec fn block_root(p: int, n: int, m: int, c: int) -> int {
    if m <= 1 {
        p - 1
    } else if c % 2 == 0 {
        twiddle(p, n, m / 2 + c / 2)
    } else {
        neg_mod(twiddle(p, n, m / 2 + c / 2), p)
    }
}

/// The sum of `a[o + k * t] * r^k` over `k` below `count`.
pub open spec fn strided(a: Seq<u64>, o: int, t: int, r: int, count: nat) -> int
    decreases count,
{
    if count == 0 {
        0
    } else {
        strided(a, o, t, r, (count - 1) as nat) + a[o + (count - 1) * t] * pow(
            r,
            (count - 1) as nat,
        )
    }
}

/// The value of the polynomial with the coefficients `a` at `x`.
pub open spec fn value_at(a: Seq<u64>, x: int) -> int {
    strided(a, 0, 1, x, a.len())
}

/// The point that entry `j` of a transform of size `n` is the value at.
pub open spec fn point(p: int, n: int, j: int) -> int {
    block_root(p, n, n, j)
}

/// The roots of the blocks are residues.
pub proof fn lemma_block_root_bounds(p: int, n: int, m: int, c: int)
    requires
        p > 1,
    ensures
        0 <= block_root(p, n, m, c) < p,
{
    lemma_twiddle_bounds(p, n, m / 2 + c / 2);
    lemma_mod_bound(-twiddle(p, n, m / 2 + c / 2), p);
}

/// The factor of the butterflies of block `c` squares to the root of the
/// block, and it and its opposite are the roots of the two blocks that the
/// block is split into.
pub proof fn lemma_block_root(p: int, n: int, m: int, c: int)
    requires
        ntt_feasible(p, n),
        power_of_two(m),
        2 * m <= n,
        0 <= c < m,
    ensures
        mul_mod(twiddle(p, n, m + c), twiddle(p, n, m + c), p) == block_root(p, n, m, c),
        block_root(p, n, 2 * m, 2 * c) == twiddle(p, n, m + c),
        block_root(p, n, 2 * m, 2 * c + 1) == neg_mod(twiddle(p, n, m + c), p),
{
    assert((2 * m) / 2 == m);
    assert((2 * c) / 2 == c);
    assert((2 * c + 1) / 2 == c);
    if m == 1 {
        lemma_twiddle_square(p, n, 1);
    } else {
        let k = m / 2 + c / 2;
        assert(m % 2 == 0);
        if c % 2 == 0 {
            assert(m + c == 2 * k);
        } else {
            assert(m + c == 2 * k + 1);
        }
        lemma_twiddle_square(p, n, k);
    }
}

/// Even powers of a square root are powers of the square.
pub proof fn lemma_pow_square(s: int, r: int, j: nat, p: int)
    requires
        p > 0,
        (s * s) % p == r % p,
    ensures
        pow(s, 2 * j) % p == pow(r, j) % p,
        pow(s, 2 * j + 1) % p == (s * pow(r, j)) % p,
{
    lemma_pow_multiplies(s, 2, j);
    lemma_square_is_pow2(s);
    assert(pow(s, 2 * j) == pow(s * s, j));
    lemma_pow_mod_noop(s * s, j, p);
    lemma_pow_mod_noop(r, j, p);
    lemma_pow_adds(s, 1, 2 * j);
    lemma_pow1(s);
    assert(pow(s, 2 * j + 1) == s * pow(s, 2 * j));
    lemma_cong_mul(pow(s, 2 * j), pow(r, j), s, p);
}

/// A sum with stride `t` and `2m` terms in powers of `s` splits into the
/// terms with even and with odd exponents: two sums with stride `2t` and `m`
/// terms in powers of `s^2`, the second one shifted by `t` and times `s`.
pub proof fn lemma_split(a: Seq<u64>, o: int, t: int, s: int, r: int, m: nat, p: int)
    requires
        p > 0,
        (s * s) % p == r % p,
    ensures
        strided(a, o, t, s, 2 * m) % p == (strided(a, o, 2 * t, r, m) + s * strided(
            a,
            o + t,
            2 * t,
            r,
            m,
        )) % p,
    decreases m,
{
    if m == 0 {
        lemma_mul_basics(s);
    } else {
        let j = (m - 1) as nat;
        lemma_split(a, o, t, s, r, j, p);
        lemma_pow_square(s, r, j, p);
        let even = a[o + (2 * j) * t] as int;
        let odd = a[o + (2 * j + 1) * t] as int;
        assert((2 * j) * t == j * (2 * t)) by (nonlinear_arith);
        assert((2 * j + 1) * t == t + j * (2 * t)) by (nonlinear_arith);
        let left = strided(a, o, t, s, 2 * j);
        let x = strided(a, o, 2 * t, r, j);
        let y = strided(a, o + t, 2 * t, r, j);
        // the two new terms on the left
        assert(strided(a, o, t, s, (2 * j + 1) as nat) == left + even * pow(s, 2 * j));
        assert(strided(a, o, t, s, 2 * m) == left + even * pow(s, 2 * j) + odd * pow(
            s,
            2 * j + 1,
        ));
        // the new terms on the right
        assert(strided(a, o, 2 * t, r, m) == x + even * pow(r, j));
        assert(strided(a, o + t, 2 * t, r, m) == y + odd * pow(r, j));
        lemma_cong_mul(pow(s, 2 * j), pow(r, j), even, p);
        lemma_cong_mul(pow(s, 2 * j + 1), s * pow(r, j), odd, p);
        lemma_cong_add_sub(left, x + s * y, even * pow(s, 2 * j), even * pow(r, j), p);
        lemma_cong_add_sub(
            left + even * pow(s, 2 * j),
            x + s * y + even * pow(r, j),
            odd * pow(s, 2 * j + 1),
            odd * (s * pow(r, j)),
            p,
        );
        assert(x + s * y + even * pow(r, j) + odd * (s * pow(r, j)) == (x + even * pow(r, j)) + s
            * (y + odd * pow(r, j))) by (nonlinear_arith);
    }
}

/// The sums of the terms of a constant polynomial are the constant.
pub proof fn lemma_constant_sum(a: Seq<u64>, x: int, count: nat)
    requires
        1 <= count <= a.len(),
        forall|k: int| 1 <= k < a.len() ==> (#[trigger] a[k]) == 0,
    ensures
        strided(a, 0, 1, x, count) == a[0],
    decreases count,
{
    if count == 1 {
        lemma_pow0(x);
        assert(0 + 0 * 1 == 0);
        assert(strided(a, 0, 1, x, 0) == 0);
        lemma_mul_basics(a[0] as int);
    } else {
        lemma_constant_sum(a, x, (count - 1) as nat);
        assert(0 + (count - 1) * 1 == count - 1);
        lemma_mul_basics(pow(x, (count - 1) as nat));
    }
}

/// After the layers with fewer than `m` blocks, entry `o * m + c` holds
/// coefficient `o` of the polynomial `a` modulo `X^(n/m) - r`, where `r` is the
/// root of block `c`.
pub open spec fn evaluates(arr: Seq<u64>, a: Seq<u64>, p: int, m: int) -> bool {
    let n = a.len() as int;
    &&& arr.len() == a.len()
    &&& forall|j: int|
        0 <= j < n ==> (#[trigger] arr[j]) as int == strided(
            a,
            j / m,
            n / m,
            block_root(p, n, m, j % m),
            m as nat,
        ) % p
}

/// Before the first layer, the entries are the coefficients.
pub proof fn lemma_evaluates_first(a: Seq<u64>, p: int)
    requires
        p > 1,
        reduced(a, p),
    ensures
        evaluates(a, a, p, 1),
{
    let n = a.len() as int;
    assert forall|j: int| 0 <= j < n implies (#[trigger] a[j]) as int == strided(
        a,
        j / 1,
        n / 1,
        block_root(p, n, 1, j % 1),
        1,
    ) % p by {
        let r = block_root(p, n, 1, j % 1);
        assert(strided(a, j, n, r, 0) == 0);
        lemma_pow0(r);
        assert(0 * n == 0);
        assert(strided(a, j, n, r, 1) == 0 + a[j + 0 * n] * pow(r, 0));
        lemma_mul_basics(a[j] as int);
        lemma_small_mod(a[j] as nat, p as nat);
    }
}

/// One layer splits every block in two.
pub proof fn lemma_evaluates_layer(arr: Seq<u64>, a: Seq<u64>, p: int, m: int)
    requires
        ntt_feasible(p, a.len() as int),
        power_of_two(m),
        2 * m <= a.len(),
        evaluates(arr, a, p, m),
    ensures
        evaluates(forward_layer(arr, p, m), a, p, 2 * m),
{
    let n = a.len() as int;
    let next = forward_layer(arr, p, m);
    assert(power_of_two(2 * m));
    lemma_power_of_two_divides(2 * m, n);
    lemma_fundamental_div_mod(n, 2 * m);
    let t2 = n / (2 * m);
    assert(n == (2 * m) * t2);
    assert(n == m * (2 * t2)) by (nonlinear_arith)
        requires
            n == (2 * m) * t2,
    ;
    assert(n / 2 == m * t2) by (nonlinear_arith)
        requires
            n == (2 * m) * t2,
    ;
    lemma_fundamental_div_mod_converse(n, m, 2 * t2, 0);
    let t = n / m;
    assert(t == 2 * t2);
    assert forall|i: int| 0 <= i < n implies (#[trigger] next[i]) as int == strided(
        a,
        i / (2 * m),
        n / (2 * m),
        block_root(p, n, 2 * m, i % (2 * m)),
        (2 * m) as nat,
    ) % p by {
        let j = i / 2;
        let b = i % 2;
        let o = j / m;
        let c = j % m;
        lemma_fundamental_div_mod(j, m);
        lemma_mod_bound(j, m);
        assert(j == m * o + c);
        assert(0 <= j < n / 2);
        // where the pair of entries comes from
        assert(j + n / 2 == m * (o + t2) + c) by (nonlinear_arith)
            requires
                j == m * o + c,
                n / 2 == m * t2,
        ;
        assert(o >= 0) by (nonlinear_arith)
            requires
                j == m * o + c,
                0 <= c < m,
                j >= 0,
        ;
        lemma_mul_is_commutative(m, o + t2);
        lemma_fundamental_div_mod_converse(j + n / 2, m, o + t2, c);
        // where the entry goes to
        assert(i == (2 * m) * o + (2 * c + b)) by (nonlinear_arith)
            requires
                i == 2 * j + b,
                j == m * o + c,
        ;
        lemma_mul_is_commutative(2 * m, o);
        lemma_fundamental_div_mod_converse(i, 2 * m, o, 2 * c + b);
        let s = twiddle(p, n, m + c);
        let r = block_root(p, n, m, c);
        lemma_block_root(p, n, m, c);
        lemma_twiddle_bounds(p, n, m + c);
        lemma_block_root_bounds(p, n, m, c);
        lemma_small_mod(r as nat, p as nat);
        let x = strided(a, o, t, r, m as nat);
        let y = strided(a, o + t2, t, r, m as nat);
        let u = arr[j] as int;
        let v = arr[j + n / 2] as int;
        assert(u == x % p);
        assert(v == y % p);
        lemma_mod_twice(x, p);
        lemma_mod_twice(y, p);
        let w = mul_mod(s, v, p);
        lemma_mod_twice(s * v, p);
        lemma_cong_mul2(s, s, v, y, p);
        assert(w % p == (s * y) % p);
        lemma_cong_add_sub(u, x, w, s * y, p);
        lemma_mod_bound(u + w, p);
        lemma_mod_bound(u - w, p);
        assert(m as nat + m as nat == (2 * m) as nat);
        if b == 0 {
            lemma_split(a, o, t2, s, r, m as nat, p);
            assert(next[i] == add_mod(u, w, p));
        } else {
            let opposite = neg_mod(s, p);
            lemma_mod_twice(-s, p);
            lemma_cong_mul2(opposite, -s, opposite, -s, p);
            assert((-s) * (-s) == s * s) by (nonlinear_arith);
            lemma_split(a, o, t2, opposite, r, m as nat, p);
            lemma_cong_mul(opposite, -s, y, p);
            assert((-s) * y == -(s * y)) by (nonlinear_arith);
            lemma_cong_add_sub(x, x, opposite * y, -(s * y), p);
            assert(next[i] == sub_mod(u, w, p));
        }
    }
}

/// The layers from the one with `m` blocks on split every block down to one
/// entry.
pub proof fn lemma_evaluates_all(arr: Seq<u64>, a: Seq<u64>, p: int, m: int)
    requires
        ntt_feasible(p, a.len() as int),
        power_of_two(m),
        m <= a.len(),
        evaluates(arr, a, p, m),
    ensures
        evaluates(forward_from(arr, p, m, a.len() as int), a, p, a.len() as int),
    decreases a.len() - m,
{
    let n = a.len() as int;
    if m < n {
        lemma_power_of_two_gap(m, n);
        lemma_evaluates_layer(arr, a, p, m);
        lemma_evaluates_all(forward_layer(arr, p, m), a, p, 2 * m);
    }
}

/// Entry `j` of the transform of a polynomial is the value of the polynomial
/// at the point of `j`.
pub proof fn lemma_forward_evaluates(a: Seq<u64>, p: int, j: int)
    requires
        ntt_feasible(p, a.len() as int),
        reduced(a, p),
        0 <= j < a.len(),
    ensures
        ntt_forward(a, p).len() == a.len(),
        ntt_forward(a, p)[j] as int == value_at(a, point(p, a.len() as int, j)) % p,
{
    let n = a.len() as int;
    lemma_evaluates_first(a, p);
    lemma_evaluates_all(a, a, p, 1);
    let f = ntt_forward(a, p);
    assert(evaluates(f, a, p, n));
    lemma_small_mod(j as nat, n as nat);
    lemma_fundamental_div_mod_converse(j, n, 0, j);
    lemma_div_by_self(n);
    assert(f[j] as int == strided(a, j / n, n / n, block_root(p, n, n, j % n), n as nat) % p);
}

} // verus!
