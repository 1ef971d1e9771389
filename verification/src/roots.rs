//! Polynomials modulo a prime have no more roots than their degree; hence,
//! modulo a prime `p = 1 (mod 2n)`, some number has a power that is a primitive
//! `2n`-th root of unity.
use crate::arith::{is_prime, lemma_cong_add_sub, lemma_euclid, pow_mod};
use crate::fermat::lemma_fermat;
use vstd::arithmetic::div_mod::*;
use vstd::arithmetic::mul::*;
use vstd::arithmetic::power::*;
use vstd::prelude::*;

verus! {

/// The value at `x` of the polynomial with the coefficients `c`, lowest first.
pub open spec fn eval(c: Seq<int>, x: int) -> int
    decreases c.len(),
{
    if c.len() == 0 {
        0
    } else {
        c[0] + x * eval(c.drop_first(), x)
    }
}

/// The quotient of the polynomial `c` by `X - r`.
pub open spec fn quotient(c: Seq<int>, r: int) -> Seq<int>
    decreases c.len(),
{
    if c.len() <= 1 {
        Seq::empty()
    } else {
        seq![eval(c.drop_first(), r)] + quotient(c.drop_first(), r)
    }
}

/// The polynomial `X^k`.
pub open spec fn monomial(k: nat) -> Seq<int> {
    Seq::new(
        k + 1,
        |i: int|
            if i == k {
                1int
            } else {
                0int
            },
    )
}

/// Division by `X - r` leaves the value at `r`: `c(x) = (x - r) * q(x) + c(r)`,
/// where the quotient `q` is one shorter than `c` and has its last coefficient.
pub proof fn lemma_quotient(c: Seq<int>, r: int, x: int)
    requires
        c.len() >= 1,
    ensures
        quotient(c, r).len() == c.len() - 1,
        c.len() >= 2 ==> quotient(c, r).last() == c.last(),
        eval(c, x) == (x - r) * eval(quotient(c, r), x) + eval(c, r),
    decreases c.len(),
{
    let tail = c.drop_first();
    if c.len() == 1 {
        assert(tail.len() == 0);
        assert(eval(tail, x) == 0);
        assert(eval(tail, r) == 0);
        assert(eval(quotient(c, r), x) == 0);
        lemma_mul_basics(x - r);
        lemma_mul_basics(x);
        lemma_mul_basics(r);
    } else {
        lemma_quotient(tail, r, x);
        let q = quotient(c, r);
        let q_tail = quotient(tail, r);
        assert(q.drop_first() =~= q_tail);
        assert(q[0] == eval(tail, r));
        assert(eval(q, x) == eval(tail, r) + x * eval(q_tail, x));
        if c.len() >= 3 {
            assert(q.last() == q_tail.last());
            assert(tail.last() == c.last());
        } else {
            assert(tail.len() == 1);
            assert(eval(tail.drop_first(), r) == 0);
            lemma_mul_basics(r);
            assert(eval(tail, r) == tail[0]);
            assert(q.last() == c.last());
        }
        let et = eval(tail, r);
        let eq = eval(q_tail, x);
        assert(c[0] + x * ((x - r) * eq + et) == (x - r) * (et + x * eq) + (c[0] + r * et))
            by (nonlinear_arith);
    }
}

/// Euclid's lemma for integers of either sign.
pub proof fn lemma_euclid_signed(p: int, a: int, b: int)
    requires
        is_prime(p),
        (a * b) % p == 0,
    ensures
        a % p == 0 || b % p == 0,
{
    lemma_mul_mod_noop(a, b, p);
    lemma_mod_bound(a, p);
    lemma_mod_bound(b, p);
    lemma_euclid(p, a % p, b % p);
    lemma_mod_twice(a, p);
    lemma_mod_twice(b, p);
}

/// Two different residues are not congruent.
pub proof fn lemma_distinct_residues(x: int, r: int, p: int)
    requires
        0 <= x < p,
        0 <= r < p,
        x != r,
    ensures
        (x - r) % p != 0,
{
    if x > r {
        lemma_small_mod((x - r) as nat, p as nat);
    } else {
        lemma_mod_add_multiples_vanish(x - r, p);
        lemma_small_mod((x - r + p) as nat, p as nat);
    }
}

/// A polynomial whose last coefficient the prime `p` does not divide has fewer
/// different roots modulo `p` than it has coefficients.
pub proof fn lemma_roots_bound(c: Seq<int>, roots: Seq<int>, p: int)
    requires
        is_prime(p),
        c.len() >= 1,
        c.last() % p != 0,
        forall|i: int|
            0 <= i < roots.len() ==> 0 <= (#[trigger] roots[i]) < p && eval(c, roots[i]) % p == 0,
        forall|i: int, j: int| 0 <= i < j < roots.len() ==> roots[i] != roots[j],
    ensures
        roots.len() <= c.len() - 1,
    decreases c.len(),
{
    if roots.len() > 0 {
        let r = roots.last();
        assert(0 <= r < p && eval(c, r) % p == 0);
        if c.len() == 1 {
            assert(eval(c.drop_first(), r) == 0);
            lemma_mul_basics(r);
            assert(eval(c, r) == c[0]);
        } else {
            let q = quotient(c, r);
            let rest = roots.drop_last();
            lemma_quotient(c, r, r);
            assert forall|i: int| 0 <= i < rest.len() implies 0 <= (#[trigger] rest[i]) < p && eval(
                q,
                rest[i],
            ) % p == 0 by {
                let x = rest[i];
                assert(x == roots[i]);
                assert(x != r);
                lemma_quotient(c, r, x);
                lemma_small_mod(0, p as nat);
                lemma_cong_add_sub(eval(c, x), 0, eval(c, r), 0, p);
                assert(((x - r) * eval(q, x)) % p == 0);
                lemma_euclid_signed(p, x - r, eval(q, x));
                lemma_distinct_residues(x, r, p);
            }
            assert forall|i: int, j: int| 0 <= i < j < rest.len() implies rest[i] != rest[j] by {
                assert(rest[i] == roots[i] && rest[j] == roots[j]);
            }
            lemma_roots_bound(q, rest, p);
        }
    }
}

/// The value of `X^k` at `x` is the `k`-th power of `x`.
pub proof fn lemma_monomial(k: nat, x: int)
    ensures
        eval(monomial(k), x) == pow(x, k),
    decreases k,
{
    let c = monomial(k);
    if k == 0 {
        assert(eval(c.drop_first(), x) == 0);
        lemma_mul_basics(x);
        lemma_pow0(x);
    } else {
        assert(c.drop_first() =~= monomial((k - 1) as nat));
        lemma_monomial((k - 1) as nat, x);
        lemma_pow_adds(x, 1, (k - 1) as nat);
        lemma_pow1(x);
    }
}

/// Modulo a prime `p`, not every number from 1 to `p - 1` has 1 for its
/// `h`-th power, where `1 <= h < p - 1`.
pub proof fn lemma_power_not_one(p: int, h: nat) -> (a: int)
    requires
        is_prime(p),
        1 <= h < p - 1,
    ensures
        1 <= a < p,
        pow_mod(a, h, p) != 1,
{
    if forall|a: int| 1 <= a < p ==> #[trigger] pow_mod(a, h, p) == 1 {
        // every number from 1 to p - 1 is a root of X^h - 1
        let c = monomial(h).update(0, -1);
        let roots = Seq::new((p - 1) as nat, |i: int| i + 1);
        assert(c.last() == 1);
        lemma_small_mod(1, p as nat);
        assert forall|i: int| 0 <= i < roots.len() implies 0 <= (#[trigger] roots[i]) < p && eval(
            c,
            roots[i],
        ) % p == 0 by {
            let x = roots[i];
            assert(c.drop_first() =~= monomial((h - 1) as nat));
            lemma_monomial((h - 1) as nat, x);
            lemma_pow_adds(x, 1, (h - 1) as nat);
            lemma_pow1(x);
            assert(eval(c, x) == pow(x, h) - 1);
            assert(pow_mod(x, h, p) == 1);
            lemma_cong_add_sub(pow(x, h), 1, 1, 1, p);
            lemma_small_mod(0, p as nat);
        }
        lemma_roots_bound(c, roots, p);
        assert(false);
    }
    choose|a: int| 1 <= a < p && #[trigger] pow_mod(a, h, p) != 1
}

/// Modulo a prime `p`, some number from 2 to `p - 1` has -1 for its power
/// `(p - 1) / 2`.
pub proof fn lemma_minus_one_power(p: int) -> (a: int)
    requires
        is_prime(p),
        p >= 5,
        p % 2 == 1,
    ensures
        2 <= a < p,
        pow_mod(a, ((p - 1) / 2) as nat, p) == p - 1,
{
    let h = ((p - 1) / 2) as nat;
    let a = lemma_power_not_one(p, h);
    let y = pow_mod(a, h, p);
    lemma_mod_bound(pow(a, h), p);
    lemma_small_mod(a as nat, p as nat);
    lemma_fermat(p as nat, a as nat);
    lemma_pow_adds(a, h, h);
    assert(h + h == p - 1);
    lemma_mul_mod_noop(pow(a, h), pow(a, h), p);
    assert((y * y) % p == 1);
    lemma_small_mod(1, p as nat);
    lemma_small_mod(0, p as nat);
    if y == 0 {
        lemma_mul_basics(y);
    }
    assert(y >= 1);
    assert((y - 1) * (y + 1) == y * y - 1) by (nonlinear_arith);
    lemma_cong_add_sub(y * y, 1, 1, 1, p);
    assert(((y - 1) * (y + 1)) % p == 0);
    lemma_euclid(p, y - 1, y + 1);
    if (y - 1) % p == 0 {
        lemma_small_mod((y - 1) as nat, p as nat);
    } else {
        if y + 1 < p {
            lemma_small_mod((y + 1) as nat, p as nat);
        }
    }
    assert(y == p - 1);
    if a == 1 {
        lemma1_pow(h);
    }
    a
}

} // verus!
