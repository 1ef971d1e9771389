//! The residue number system of a list of moduli: projecting a natural number
//! onto its residues, and lifting residues back to the one number below the
//! product of the moduli that has them.
use crate::arith::{
    gcd, lemma_cong_add_sub, lemma_cong_mul, lemma_cong_mul2, lemma_coprime_product_divides,
    lemma_mod_multiples_vanish_any, modulus_ok, mul_mod, sub_mod,
};
use crate::big::{big_add, big_from_u64, big_mul_word, big_rem_word, big_value};
use crate::error::Error;
use crate::zq::Modulus;
use num_bigint::BigUint;
use vstd::arithmetic::div_mod::*;
use vstd::arithmetic::mul::*;
use vstd::prelude::*;

verus! {

/// The product of the first `k` moduli.
pub open spec fn product_of(moduli: Seq<u64>, k: nat) -> nat
    decreases k,
{
    if k == 0 {
        1
    } else {
        product_of(moduli, (k - 1) as nat) * (moduli[k - 1] as nat)
    }
}

/// Every modulus of the list is in range.
pub open spec fn moduli_ok(moduli: Seq<u64>) -> bool {
    forall|i: int| 0 <= i < moduli.len() ==> modulus_ok(#[trigger] moduli[i] as int)
}

/// Every modulus of the list shares no factor with the product of those before it.
pub open spec fn chain_coprime(moduli: Seq<u64>) -> bool {
    forall|i: int|
        0 <= i < moduli.len() ==> gcd(
            #[trigger] moduli[i] as nat,
            product_of(moduli, i as nat) % (moduli[i] as nat),
        ) == 1
}

/// The residues `rests` are those of `x`, one for each modulus.
pub open spec fn residues_of(x: nat, moduli: Seq<u64>, rests: Seq<u64>) -> bool {
    &&& rests.len() == moduli.len()
    &&& forall|i: int| 0 <= i < moduli.len() ==> (#[trigger] rests[i]) == x % (moduli[i] as nat)
}

/// `rests` holds one residue for each modulus.
pub open spec fn residues_ok(moduli: Seq<u64>, rests: Seq<u64>) -> bool {
    &&& rests.len() == moduli.len()
    &&& forall|i: int| 0 <= i < moduli.len() ==> (#[trigger] rests[i]) < moduli[i]
}

/// The product of the first `k` moduli is a multiple of each of them.
pub proof fn lemma_product_multiple(moduli: Seq<u64>, k: nat, j: int)
    requires
        moduli_ok(moduli),
        0 <= j < k <= moduli.len(),
    ensures
        product_of(moduli, k) % (moduli[j] as nat) == 0,
    decreases k,
{
    let q = moduli[j] as int;
    let prev = product_of(moduli, (k - 1) as nat) as int;
    if j == k - 1 {
        lemma_mod_multiples_basic(prev, q);
    } else {
        lemma_product_multiple(moduli, (k - 1) as nat, j);
        lemma_mod_multiples_vanish_any(prev, moduli[k - 1] as int, 0, q);
        lemma_small_mod(0, q as nat);
    }
}

/// The product of the first `k` moduli is positive.
pub proof fn lemma_product_positive(moduli: Seq<u64>, k: nat)
    requires
        moduli_ok(moduli),
        k <= moduli.len(),
    ensures
        product_of(moduli, k) >= 1,
    decreases k,
{
    if k > 0 {
        lemma_product_positive(moduli, (k - 1) as nat);
        lemma_mul_strictly_positive(
            product_of(moduli, (k - 1) as nat) as int,
            moduli[k - 1] as int,
        );
    }
}

/// A number that every one of the first `k` moduli divides is divided by their
/// product, where each modulus is coprime to the product of those before it.
pub proof fn lemma_product_divides(moduli: Seq<u64>, k: nat, d: nat)
    requires
        moduli_ok(moduli),
        chain_coprime(moduli),
        k <= moduli.len(),
        forall|j: int| 0 <= j < k ==> d % (#[trigger] moduli[j] as nat) == 0,
    ensures
        d % product_of(moduli, k) == 0,
    decreases k,
{
    if k == 0 {
        lemma_mod_multiples_basic(d as int, 1);
    } else {
        lemma_product_divides(moduli, (k - 1) as nat, d);
        lemma_product_positive(moduli, (k - 1) as nat);
        let before = product_of(moduli, (k - 1) as nat);
        let q = moduli[k - 1] as nat;
        assert(modulus_ok(moduli[k - 1] as int));
        assert(gcd(q, before % q) == 1);
        assert(gcd(before, q) == gcd(q, before % q));
        lemma_coprime_product_divides(before, q, d);
    }
}

/// Two numbers below the product of the moduli that have the same residues
/// are the same number.
pub proof fn lemma_residues_unique(moduli: Seq<u64>, x: nat, y: nat)
    requires
        moduli_ok(moduli),
        chain_coprime(moduli),
        x < product_of(moduli, moduli.len()),
        y < product_of(moduli, moduli.len()),
        forall|i: int|
            0 <= i < moduli.len() ==> x % (#[trigger] moduli[i] as nat) == y % (moduli[i] as nat),
    ensures
        x == y,
{
    let big = if x >= y { x } else { y };
    let small = if x >= y { y } else { x };
    let d = (big - small) as nat;
    assert forall|j: int| 0 <= j < moduli.len() implies d % (#[trigger] moduli[j] as nat) == 0 by {
        assert(modulus_ok(moduli[j] as int));
        lemma_sub_mod_noop(big as int, small as int, moduli[j] as int);
        lemma_small_mod(0, moduli[j] as nat);
    }
    lemma_product_divides(moduli, moduli.len(), d);
    lemma_small_mod(d, product_of(moduli, moduli.len()));
}

/// The residues of a number are those of its remainder modulo the product of
/// the moduli.
pub proof fn lemma_residues_of_remainder(moduli: Seq<u64>, x: nat, i: int)
    requires
        moduli_ok(moduli),
        0 <= i < moduli.len(),
    ensures
        (x % product_of(moduli, moduli.len())) % (moduli[i] as nat) == x % (moduli[i] as nat),
{
    let q = moduli[i] as int;
    let total = product_of(moduli, moduli.len()) as int;
    lemma_product_multiple(moduli, moduli.len(), i);
    lemma_product_positive(moduli, moduli.len());
    lemma_fundamental_div_mod(total, q);
    let c = total / q;
    assert(total == q * c);
    assert(c > 0) by (nonlinear_arith)
        requires
            total == q * c,
            total >= 1,
            q >= 2,
    ;
    lemma_mod_mod(x as int, q, c);
}

/// One step of lifting: from a number `x` below `prod` that has the first
/// residues, to the number below `prod * q` that has the next one as well.
pub proof fn lemma_lift_step(x: int, prod: int, q: int, rest: int, inv: int, t: int)
    requires
        q > 1,
        prod >= 1,
        0 <= x < prod,
        0 <= rest < q,
        mul_mod(prod % q, inv, q) == 1,
        t == mul_mod(sub_mod(rest, x % q, q), inv, q),
    ensures
        0 <= x + prod * t < prod * q,
        (x + prod * t) % q == rest,
{
    lemma_mod_bound(sub_mod(rest, x % q, q) * inv, q);
    assert(0 <= x + prod * t < prod * q) by (nonlinear_arith)
        requires
            0 <= x < prod,
            0 <= t < q,
    ;
    let d = sub_mod(rest, x % q, q);
    // t is congruent to (rest - x) * inv
    lemma_mod_twice(x, q);
    lemma_mod_twice(rest - x % q, q);
    lemma_small_mod(rest as nat, q as nat);
    lemma_cong_add_sub(rest, rest, x % q, x, q);
    assert(d % q == (rest - x) % q);
    lemma_mod_twice(d * inv, q);
    lemma_cong_mul(d, rest - x, inv, q);
    assert(t % q == ((rest - x) * inv) % q);
    // prod * t is congruent to rest - x
    lemma_mod_twice(prod, q);
    lemma_cong_mul2(prod, prod % q, t, (rest - x) * inv, q);
    assert((prod % q) * ((rest - x) * inv) == ((prod % q) * inv) * (rest - x))
        by (nonlinear_arith);
    lemma_small_mod(1, q as nat);
    lemma_cong_mul((prod % q) * inv, 1, rest - x, q);
    assert((prod * t) % q == (rest - x) % q);
    lemma_cong_add_sub(x, x, prod * t, rest - x, q);
}

/// A list of moduli with what lifting needs: the products of its prefixes, and
/// the inverse of each such product modulo the next modulus.
#[derive(Debug)]
pub struct RnsContext {
    moduli_u64: Vec<u64>,
    moduli: Vec<Modulus>,
    prefix: Vec<BigUint>,
    prefix_inv: Vec<u64>,
    product: BigUint,
}

impl RnsContext {
    /// The moduli, in order.
    pub closed spec fn moduli(&self) -> Seq<u64> {
        self.moduli_u64@
    }

    /// The invariant of the type: what is stored belongs to the moduli.
    pub closed spec fn wf(&self) -> bool {
        let m = self.moduli_u64@.len();
        &&& m >= 1
        &&& moduli_ok(self.moduli_u64@)
        &&& chain_coprime(self.moduli_u64@)
        &&& self.moduli@.len() == m
        &&& self.prefix@.len() == m
        &&& self.prefix_inv@.len() == m
        &&& big_value(self.product) == product_of(self.moduli_u64@, m)
        &&& forall|i: int|
            0 <= i < m ==> (#[trigger] self.moduli@[i]).wf() && self.moduli@[i].value()
                == self.moduli_u64@[i]
        &&& forall|i: int|
            0 <= i < m ==> big_value(#[trigger] self.prefix@[i]) == product_of(
                self.moduli_u64@,
                i as nat,
            )
        &&& forall|i: int|
            0 <= i < m ==> (#[trigger] self.prefix_inv@[i]) < self.moduli_u64@[i] && mul_mod(
                (product_of(self.moduli_u64@, i as nat) % (self.moduli_u64@[i] as nat)) as int,
                self.prefix_inv@[i] as int,
                self.moduli_u64@[i] as int,
            ) == 1
    }

    /// What the invariant says of the moduli.
    pub proof fn lemma_wf(&self)
        requires
            self.wf(),
        ensures
            self.moduli().len() >= 1,
            moduli_ok(self.moduli()),
            chain_coprime(self.moduli()),
            Self::new_spec(self.moduli()) is None,
    {
    }

    /// What `new` answers for a list of moduli.
    pub open spec fn new_spec(moduli: Seq<u64>) -> Option<Error> {
        if moduli.len() == 0 {
            Some(Error::EmptyModuli)
        } else if !moduli_ok(moduli) {
            Some(
                Error::InvalidModulus(
                    moduli[choose|i: int|
                        0 <= i < moduli.len() && !modulus_ok(#[trigger] moduli[i] as int) && forall|
                            j: int,
                        |
                            0 <= j < i ==> modulus_ok(#[trigger] moduli[j] as int)],
                ),
            )
        } else if !chain_coprime(moduli) {
            Some(Error::ModuliNotCoprime)
        } else {
            None
        }
    }

    /// Builds the residue number system of `moduli`. The list must not be empty,
    /// every modulus must be in range, and each must be coprime to the product of
    /// those before it; the first modulus out of range is reported.
    pub fn new(moduli: &[u64]) -> (r: Result<RnsContext, Error>)
        ensures
            match r {
                Ok(rns) => Self::new_spec(moduli@) is None && rns.wf() && rns.moduli() == moduli@,
                Err(e) => Self::new_spec(moduli@) == Some(e),
            },
    {
        let m: usize = moduli.len();
        if m == 0 {
            return Err(Error::EmptyModuli);
        }
        let mut arith: Vec<Modulus> = Vec::with_capacity(m);
        let mut copy: Vec<u64> = Vec::with_capacity(m);
        let mut i: usize = 0;
        while i < m
            invariant
                0 <= i <= m,
                m == moduli@.len(),
                arith@.len() == i,
                copy@.len() == i,
                forall|j: int| 0 <= j < i ==> modulus_ok(#[trigger] moduli@[j] as int),
                forall|j: int| 0 <= j < i ==> (#[trigger] copy@[j]) == moduli@[j],
                forall|j: int|
                    0 <= j < i ==> (#[trigger] arith@[j]).wf() && arith@[j].value() == moduli@[j],
            decreases m - i,
        {
            match Modulus::new(moduli[i]) {
                Ok(q) => {
                    arith.push(q);
                    copy.push(moduli[i]);
                },
                Err(e) => {
                    proof {
                        let w = choose|k: int|
                            0 <= k < moduli@.len() && !modulus_ok(#[trigger] moduli@[k] as int)
                                && forall|j: int|
                                0 <= j < k ==> modulus_ok(#[trigger] moduli@[j] as int);
                        assert(!modulus_ok(moduli@[i as int] as int));
                        assert(w == i) by {
                            if w < i {
                                assert(modulus_ok(moduli@[w] as int));
                            } else if w > i {
                                assert(modulus_ok(moduli@[i as int] as int));
                            }
                        }
                    }
                    return Err(e);
                },
            }
            i += 1;
        }
        assert(copy@ =~= moduli@);
        let mut prefix: Vec<BigUint> = Vec::with_capacity(m);
        let mut prefix_inv: Vec<u64> = Vec::with_capacity(m);
        let mut running: BigUint = big_from_u64(1);
        i = 0;
        while i < m
            invariant
                0 <= i <= m,
                m == moduli@.len(),
                moduli_ok(moduli@),
                arith@.len() == m,
                forall|j: int|
                    0 <= j < m ==> (#[trigger] arith@[j]).wf() && arith@[j].value() == moduli@[j],
                prefix@.len() == i,
                prefix_inv@.len() == i,
                big_value(running) == product_of(moduli@, i as nat),
                forall|j: int|
                    0 <= j < i ==> gcd(
                        #[trigger] moduli@[j] as nat,
                        product_of(moduli@, j as nat) % (moduli@[j] as nat),
                    ) == 1,
                forall|j: int|
                    0 <= j < i ==> big_value(#[trigger] prefix@[j]) == product_of(
                        moduli@,
                        j as nat,
                    ),
                forall|j: int|
                    0 <= j < i ==> (#[trigger] prefix_inv@[j]) < moduli@[j] && mul_mod(
                        (product_of(moduli@, j as nat) % (moduli@[j] as nat)) as int,
                        prefix_inv@[j] as int,
                        moduli@[j] as int,
                    ) == 1,
            decreases m - i,
        {
            let q: u64 = moduli[i];
            let rest: u64 = big_rem_word(&running, q);
            proof {
                lemma_mod_bound(product_of(moduli@, i as nat) as int, q as int);
            }
            match arith[i].inv(rest) {
                Some(inverse) => {
                    let next: BigUint = big_mul_word(&running, q);
                    prefix.push(running);
                    prefix_inv.push(inverse);
                    running = next;
                },
                None => {
                    return Err(Error::ModuliNotCoprime);
                },
            }
            i += 1;
        }
        Ok(RnsContext { moduli_u64: copy, moduli: arith, prefix, prefix_inv, product: running })
    }

    /// The arithmetic of modulus `i`.
    pub fn arith(&self, i: usize) -> (r: Modulus)
        requires
            self.wf(),
            i < self.moduli().len(),
        ensures
            r.wf(),
            r.value() == self.moduli()[i as int],
    {
        self.moduli[i]
    }

    /// The product of all moduli.
    pub fn modulus(&self) -> (r: &BigUint)
        requires
            self.wf(),
        ensures
            big_value(*r) == product_of(self.moduli(), self.moduli().len()),
    {
        &self.product
    }

    /// The residues of `a`, one for each modulus.
    pub fn project(&self, a: &BigUint) -> (r: Vec<u64>)
        requires
            self.wf(),
        ensures
            residues_of(big_value(*a), self.moduli(), r@),
            residues_ok(self.moduli(), r@),
    {
        let m: usize = self.moduli_u64.len();
        let mut out: Vec<u64> = Vec::with_capacity(m);
        let mut i: usize = 0;
        while i < m
            invariant
                self.wf(),
                0 <= i <= m,
                m == self.moduli_u64@.len(),
                out@.len() == i,
                forall|j: int|
                    0 <= j < i ==> (#[trigger] out@[j]) == big_value(*a) % (
                    self.moduli_u64@[j] as nat),
                forall|j: int| 0 <= j < i ==> (#[trigger] out@[j]) < self.moduli_u64@[j],
            decreases m - i,
        {
            assert(modulus_ok(self.moduli_u64@[i as int] as int));
            proof {
                lemma_mod_bound(big_value(*a) as int, self.moduli_u64@[i as int] as int);
            }
            out.push(big_rem_word(a, self.moduli_u64[i]));
            i += 1;
        }
        out
    }

    /// The number below the product of the moduli whose residues are `rests`.
    pub fn lift(&self, rests: &[u64]) -> (r: BigUint)
        requires
            self.wf(),
            residues_ok(self.moduli(), rests@),
        ensures
            big_value(r) < product_of(self.moduli(), self.moduli().len()),
            residues_of(big_value(r), self.moduli(), rests@),
    {
        let m: usize = self.moduli_u64.len();
        let ghost qs = self.moduli_u64@;
        let mut x: BigUint = big_from_u64(0);
        let mut i: usize = 0;
        proof {
            lemma_product_positive(qs, 0);
        }
        while i < m
            invariant
                self.wf(),
                qs == self.moduli_u64@,
                residues_ok(qs, rests@),
                0 <= i <= m,
                m == qs.len(),
                big_value(x) < product_of(qs, i as nat),
                forall|j: int|
                    0 <= j < i ==> (#[trigger] rests@[j]) == big_value(x) % (qs[j] as nat),
            decreases m - i,
        {
            let q: &Modulus = &self.moduli[i];
            assert(q.wf() && q.value() == qs[i as int]);
            assert(modulus_ok(qs[i as int] as int));
            let ghost old_x = big_value(x) as int;
            let ghost prod = product_of(qs, i as nat) as int;
            proof {
                lemma_mod_bound(old_x, qs[i as int] as int);
            }
            let have: u64 = big_rem_word(&x, self.moduli_u64[i]);
            let t: u64 = q.mul(q.sub(rests[i], have), self.prefix_inv[i]);
            let step: BigUint = big_mul_word(&self.prefix[i], t);
            x = big_add(&x, &step);
            proof {
                assert(big_value(self.prefix@[i as int]) == prod);
                lemma_lift_step(
                    old_x,
                    prod,
                    qs[i as int] as int,
                    rests@[i as int] as int,
                    self.prefix_inv@[i as int] as int,
                    t as int,
                );
                assert forall|j: int| 0 <= j < i implies (#[trigger] rests@[j]) == big_value(x) % (
                qs[j] as nat) by {
                    assert(modulus_ok(qs[j] as int));
                    lemma_product_multiple(qs, i as nat, j);
                    lemma_mod_multiples_vanish_any(prod, t as int, old_x, qs[j] as int);
                }
            }
            i += 1;
        }
        x
    }
}

} // verus!
