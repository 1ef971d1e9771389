//! Arithmetic modulo one word-sized modulus, on single residues and on vectors of
//! residues, each in a data-independent and in a variable-time flavour.
use crate::arith::{
    add_mod, gcd, lemma_euclid_step, lemma_mul_le, lemma_mul_lt, lemma_pow_step, modulus_ok,
    mul_mod, neg_mod, pow_mod, reduced, shoup_of, shoup_pairs, sub_mod, word,
};
use crate::error::Error;
use crate::random::{chacha8_bytes, chacha8_stream};
use vstd::arithmetic::div_mod::*;
use vstd::arithmetic::mul::*;
use vstd::arithmetic::power::*;
use vstd::arithmetic::power2::{
    lemma2_to64, lemma2_to64_rest, lemma_pow2_strictly_increases, lemma_pow2_unfold, pow2,
};
use vstd::bits::lemma_u128_shr_is_div;
use vstd::bytes::{
    lemma_auto_spec_u64_to_from_le_bytes, spec_u128_from_le_bytes, spec_u64_from_le_bytes,
    spec_u64_to_le_bytes, u128_from_le_bytes, u64_from_le_bytes, u64_to_le_bytes,
};
use vstd::prelude::*;
use vstd::slice::slice_subrange;

verus! {

/// The residues that a stream of bytes gives modulo `p`: every sixteen bytes
/// of it, read as a little-endian number and reduced, are one residue.
pub open spec fn stream_residues(stream: Seq<u8>, p: int) -> Seq<u64> {
    Seq::new(
        stream.len() / 16,
        |j: int| ((spec_u128_from_le_bytes(stream.subrange(16 * j, 16 * j + 16)) as int) % p) as u64,
    )
}

/// The `n` residues that the keystream of `seed` gives modulo `p`.
pub open spec fn uniform_row(seed: Seq<u8>, n: nat, p: int) -> Seq<u64> {
    stream_residues(chacha8_stream(seed, 16 * n), p)
}

/// The bytes of a vector of words: eight for each word, the lowest first.
pub open spec fn encode_words(a: Seq<u64>) -> Seq<u8> {
    Seq::new(8 * a.len(), |k: int| spec_u64_to_le_bytes(a[k / 8])[k % 8])
}

/// The word that the bytes `8i .. 8i + 8` of `b` stand for.
pub open spec fn decode_word(b: Seq<u8>, i: int) -> u64 {
    spec_u64_from_le_bytes(b.subrange(8 * i, 8 * i + 8))
}

/// The words that the bytes `b` stand for.
pub open spec fn decode_words(b: Seq<u8>) -> Seq<u64> {
    Seq::new(b.len() / 8, |i: int| decode_word(b, i))
}

/// The bytes `b` stand for residues modulo `p`: they are a whole number of
/// words, each below `p`.
pub open spec fn decodable(b: Seq<u8>, p: int) -> bool {
    &&& b.len() % 8 == 0
    &&& forall|i: int| 0 <= i < b.len() / 8 ==> (#[trigger] decode_word(b, i)) < p
}

/// Decoding what was encoded gives the words again.
pub proof fn lemma_decode_encode(a: Seq<u64>)
    ensures
        encode_words(a).len() == 8 * a.len(),
        decode_words(encode_words(a)) == a,
{
    lemma_auto_spec_u64_to_from_le_bytes();
    let b = encode_words(a);
    assert forall|i: int| 0 <= i < a.len() implies #[trigger] decode_word(b, i) == a[i] by {
        let chunk = b.subrange(8 * i, 8 * i + 8);
        let direct = spec_u64_to_le_bytes(a[i]);
        assert forall|k: int| 0 <= k < 8 implies chunk[k] == direct[k] by {
            assert((8 * i + k) / 8 == i);
            assert((8 * i + k) % 8 == k);
        }
        assert(chunk =~= direct);
    }
    assert(decode_words(b) =~= a);
}

/// One modulus `p` with `2 <= p < 2^62`, and the constants that let words and
/// products be reduced without a division.
#[derive(Debug, Clone, Copy)]
pub struct Modulus {
    p: u64,
    /// `floor(2^64 / p)`
    ratio: u64,
    /// The smallest multiple of `p` that is at least `2^63`.
    lift: u64,
    /// One less than the number of bits of `p`.
    shift_low: u128,
    /// `floor(4^bits / p)`, where `bits` is the number of bits of `p`.
    barrett: u64,
}

impl Modulus {
    /// The modulus as a mathematical integer.
    pub closed spec fn value(&self) -> int {
        self.p as int
    }

    /// The invariant of the type: the modulus is in range and the stored
    /// constants belong to it.
    pub open spec fn wf(&self) -> bool {
        &&& modulus_ok(self.value())
        &&& self.constants_ok()
    }

    /// The stored constants are the ones that belong to the modulus.
    pub closed spec fn constants_ok(&self) -> bool {
        &&& self.ratio as int == word() / (self.p as int)
        &&& (self.lift as int) % (self.p as int) == 0
        &&& 0x8000_0000_0000_0000 <= self.lift < 0x8000_0000_0000_0000 + self.p
        &&& self.shift_low <= 61
        &&& pow2(self.shift_low as nat) <= self.p < 2 * pow2(self.shift_low as nat)
        &&& self.barrett as int == (4 * (pow2(self.shift_low as nat) as int) * (pow2(
            self.shift_low as nat,
        ) as int)) / (self.p as int)
    }

    /// Builds the arithmetic for `p`; `p` must be at least 2 and below `2^62`.
    pub fn new(p: u64) -> (r: Result<Modulus, Error>)
        ensures
            modulus_ok(p as int) ==> r is Ok && r->Ok_0.wf() && r->Ok_0.value() == p,
            !modulus_ok(p as int) ==> r == Err::<Modulus, Error>(Error::InvalidModulus(p)),
    {
        if p < 2 || p >= 0x4000_0000_0000_0000 {
            Err(Error::InvalidModulus(p))
        } else {
            let ratio: u128 = 0x1_0000_0000_0000_0000u128 / (p as u128);
            let count: u64 = (0x8000_0000_0000_0000u64 + (p - 1)) / p;
            proof {
                lemma_div_is_ordered_by_denominator(word(), 2, p as int);
                let t: int = 0x8000_0000_0000_0000 + (p - 1);
                lemma_fundamental_div_mod(t, p as int);
                lemma_mod_bound(t, p as int);
                lemma_mul_is_commutative(p as int, count as int);
                lemma_mod_multiples_basic(count as int, p as int);
            }
            // the number of bits of p, and the power of two that has as many
            let mut top: u64 = 2;
            let mut shift_low: u128 = 0;
            proof {
                lemma2_to64();
                lemma2_to64_rest();
            }
            while top <= p
                invariant
                    2 <= p < 0x4000_0000_0000_0000,
                    top == 2 * pow2(shift_low as nat),
                    top >= 2,
                    pow2(shift_low as nat) <= p,
                    shift_low <= 61,
                decreases 0x8000_0000_0000_0000 - top,
            {
                proof {
                    lemma_pow2_unfold((shift_low + 1) as nat);
                    lemma2_to64_rest();
                }
                top = top * 2;
                shift_low = shift_low + 1;
            }
            let ghost a = pow2(shift_low as nat) as int;
            assert((top as u128) * (top as u128) == 4 * a * a && 4 * a * a <= u128::MAX)
                by (nonlinear_arith)
                requires
                    top == 2 * a,
                    0 < a <= 0x4000_0000_0000_0000,
            ;
            let barrett: u128 = ((top as u128) * (top as u128)) / (p as u128);
            proof {
                lemma_barrett_constant(p as int, a, barrett as int);
            }
            Ok(
                Modulus {
                    p,
                    ratio: ratio as u64,
                    lift: count * p,
                    shift_low,
                    barrett: barrett as u64,
                },
            )
        }
    }

    /// The modulus.
    pub fn modulus(&self) -> (r: u64)
        ensures
            r == self.value(),
    {
        self.p
    }

    /// Subtracts the modulus from `x` where `x` is not below it, without
    /// branching on `x`.
    fn subtract_once(&self, x: u64) -> (r: u64)
        requires
            self.wf(),
            x < 3 * self.value(),
        ensures
            r == (if x >= self.value() {
                x - self.value()
            } else {
                x as int
            }),
    {
        let y: u64 = x.wrapping_sub(self.p);
        let top: u64 = y >> 63;
        assert(y < 0x8000_0000_0000_0000 ==> y >> 63 == 0) by (bit_vector);
        assert(y >= 0x8000_0000_0000_0000 ==> y >> 63 == 1) by (bit_vector);
        // `top` is 1 exactly when the subtraction wrapped, that is when x < p
        let keep: u64 = 1 - top;
        assert(keep * self.p == if x >= self.p { self.p as int } else { 0 }) by (nonlinear_arith)
            requires
                keep == (if x >= self.p { 1int } else { 0int }),
        ;
        x - keep * self.p
    }

    /// Brings a value below `2p` into `[0, p)` without branching on it.
    pub fn reduce_once(&self, x: u64) -> (r: u64)
        requires
            self.wf(),
            x < 2 * self.value(),
        ensures
            r == (x as int) % self.value(),
            r < self.value(),
    {
        let r: u64 = self.subtract_once(x);
        proof {
            if x >= self.p {
                lemma_fundamental_div_mod_converse(x as int, self.p as int, 1, r as int);
            } else {
                lemma_small_mod(x as nat, self.p as nat);
            }
        }
        r
    }

    /// Brings a value below `2p` into `[0, p)`; the time taken depends on the value.
    pub fn reduce_once_vt(&self, x: u64) -> (r: u64)
        requires
            self.wf(),
            x < 2 * self.value(),
        ensures
            r == (x as int) % self.value(),
            r < self.value(),
    {
        if x >= self.p {
            proof {
                lemma_fundamental_div_mod_converse(x as int, self.p as int, 1, x - self.p);
            }
            x - self.p
        } else {
            proof {
                lemma_small_mod(x as nat, self.p as nat);
            }
            x
        }
    }

    /// The sum of two residues.
    pub fn add(&self, a: u64, b: u64) -> (r: u64)
        requires
            self.wf(),
            a < self.value(),
            b < self.value(),
        ensures
            r == add_mod(a as int, b as int, self.value()),
            r < self.value(),
    {
        self.reduce_once(a + b)
    }

    /// The sum of two residues, in variable time.
    pub fn add_vt(&self, a: u64, b: u64) -> (r: u64)
        requires
            self.wf(),
            a < self.value(),
            b < self.value(),
        ensures
            r == add_mod(a as int, b as int, self.value()),
            r < self.value(),
    {
        self.reduce_once_vt(a + b)
    }

    /// The difference of two residues.
    pub fn sub(&self, a: u64, b: u64) -> (r: u64)
        requires
            self.wf(),
            a < self.value(),
            b < self.value(),
        ensures
            r == sub_mod(a as int, b as int, self.value()),
            r < self.value(),
    {
        proof {
            lemma_mod_add_multiples_vanish(a - b, self.p as int);
        }
        self.reduce_once(a + (self.p - b))
    }

    /// The difference of two residues, in variable time.
    pub fn sub_vt(&self, a: u64, b: u64) -> (r: u64)
        requires
            self.wf(),
            a < self.value(),
            b < self.value(),
        ensures
            r == sub_mod(a as int, b as int, self.value()),
            r < self.value(),
    {
        proof {
            lemma_mod_add_multiples_vanish(a - b, self.p as int);
        }
        self.reduce_once_vt(a + (self.p - b))
    }

    /// The opposite of a residue.
    pub fn neg(&self, a: u64) -> (r: u64)
        requires
            self.wf(),
            a < self.value(),
        ensures
            r == neg_mod(a as int, self.value()),
            r < self.value(),
    {
        proof {
            lemma_mod_add_multiples_vanish(-(a as int), self.p as int);
        }
        self.reduce_once(self.p - a)
    }

    /// The opposite of a residue, in variable time.
    pub fn neg_vt(&self, a: u64) -> (r: u64)
        requires
            self.wf(),
            a < self.value(),
        ensures
            r == neg_mod(a as int, self.value()),
            r < self.value(),
    {
        proof {
            lemma_mod_add_multiples_vanish(-(a as int), self.p as int);
        }
        self.reduce_once_vt(self.p - a)
    }

    /// Reduces any word modulo `p`, by one multiplication with the stored
    /// reciprocal in place of a division.
    pub fn reduce(&self, x: u64) -> (r: u64)
        requires
            self.wf(),
        ensures
            r == (x as int) % self.value(),
            r < self.value(),
    {
        let p: u64 = self.p;
        let ratio: u64 = self.ratio;
        proof {
            lemma_mul_le(x as int, ratio as int, u64::MAX as int, u64::MAX as int);
        }
        let wide: u128 = (x as u128) * (ratio as u128);
        let q: u128 = wide >> 64;
        assert(q == wide / 0x1_0000_0000_0000_0000u128) by (bit_vector)
            requires
                q == wide >> 64,
        ;
        proof {
            lemma_quotient_window(x as int, ratio as int, p as int, q as int);
        }
        let r: u64 = (x as u128 - q * (p as u128)) as u64;
        proof {
            lemma_mod_multiples_vanish(-(q as int), x as int, p as int);
            lemma_mul_is_commutative(p as int, -(q as int));
            lemma_mul_unary_negation(q as int, p as int);
        }
        self.reduce_once(r)
    }

    /// Reduces any word modulo `p` with a division.
    pub fn reduce_vt(&self, x: u64) -> (r: u64)
        requires
            self.wf(),
        ensures
            r == (x as int) % self.value(),
            r < self.value(),
    {
        x % self.p
    }

    /// Reduces a signed word modulo `p`; the result is the residue in `[0, p)`.
    pub fn reduce_i64(&self, x: i64) -> (r: u64)
        requires
            self.wf(),
        ensures
            r == (x as int) % self.value(),
            r < self.value(),
    {
        let shifted: u64 = ((x as i128) + 0x8000_0000_0000_0000i128) as u64;
        let top: u64 = shifted >> 63;
        assert(shifted < 0x8000_0000_0000_0000 ==> shifted >> 63 == 0) by (bit_vector);
        assert(shifted >= 0x8000_0000_0000_0000 ==> shifted >> 63 == 1) by (bit_vector);
        // `top` is 1 exactly when x is not negative
        let below: u64 = 1 - top;
        assert(below * self.lift == if x < 0 { self.lift as int } else { 0 }) by (nonlinear_arith)
            requires
                below == (if x < 0 { 1int } else { 0int }),
        ;
        let y: u64 = ((x as i128) + ((below * self.lift) as i128)) as u64;
        proof {
            if x < 0 {
                let k = (self.lift as int) / (self.p as int);
                lemma_fundamental_div_mod(self.lift as int, self.p as int);
                lemma_mod_multiples_vanish(k, x as int, self.p as int);
            }
        }
        self.reduce(y)
    }

    /// The product of two residues, by Barrett's reduction: the quotient by the
    /// modulus is estimated from the stored reciprocal with two shifts and one
    /// multiplication, and is at most 2 too small; no step depends on the
    /// residues.
    pub fn mul(&self, a: u64, b: u64) -> (r: u64)
        requires
            self.wf(),
            a < self.value(),
            b < self.value(),
        ensures
            r == mul_mod(a as int, b as int, self.value()),
            r < self.value(),
    {
        let p: u64 = self.p;
        let ghost low = pow2(self.shift_low as nat) as int;
        proof {
            lemma_mul_lt(a as int, b as int, p as int, p as int);
            lemma_mul_le(p as int, p as int, 2 * low, 2 * low);
            lemma2_to64();
            lemma2_to64_rest();
            if self.shift_low < 61 {
                lemma_pow2_strictly_increases(self.shift_low as nat, 61);
            }
            assert(low <= 0x2000_0000_0000_0000);
            assert(4 * low * low == (2 * low) * (2 * low) && 16 * low * low
                <= 0x4000_0000_0000_0000_0000_0000_0000_0000) by (nonlinear_arith)
                requires
                    0 <= low <= 0x2000_0000_0000_0000,
            ;
            assert(a * b < 4 * low * low && a * b <= u128::MAX) by (nonlinear_arith)
                requires
                    0 <= a < p,
                    0 <= b < p,
                    p < 2 * low,
                    0 <= low <= 0x2000_0000_0000_0000,
            ;
            lemma_pow2_unfold((self.shift_low + 1) as nat);
            lemma_pow2_unfold((self.shift_low + 2) as nat);
        }
        let wide: u128 = (a as u128) * (b as u128);
        let q1: u128 = wide >> self.shift_low;
        proof {
            lemma_u128_shr_is_div(wide, self.shift_low);
            lemma_barrett_window(
                wide as int,
                p as int,
                low,
                self.barrett as int,
                q1 as int,
                ((q1 * self.barrett) / (4 * low)) as int,
            );
        }
        let q2: u128 = q1 * (self.barrett as u128);
        let q3: u128 = q2 >> (self.shift_low + 2);
        proof {
            lemma_u128_shr_is_div(q2, (self.shift_low + 2) as u128);
        }
        let rest: u64 = (wide - q3 * (p as u128)) as u64;
        proof {
            lemma_mod_multiples_vanish(-(q3 as int), wide as int, p as int);
            lemma_mul_is_commutative(p as int, -(q3 as int));
            lemma_mul_unary_negation(q3 as int, p as int);
        }
        let once: u64 = self.subtract_once(rest);
        proof {
            if rest >= p {
                lemma_mod_multiples_vanish(-1, rest as int, p as int);
            }
        }
        self.reduce_once(once)
    }

    /// The product of two residues, in variable time.
    pub fn mul_vt(&self, a: u64, b: u64) -> (r: u64)
        requires
            self.wf(),
            a < self.value(),
            b < self.value(),
        ensures
            r == mul_mod(a as int, b as int, self.value()),
            r < self.value(),
    {
        proof {
            lemma_mul_le(a as int, b as int, u64::MAX as int, u64::MAX as int);
        }
        let wide: u128 = (a as u128) * (b as u128);
        (wide % (self.p as u128)) as u64
    }

    /// The Shoup encoding of `a`: `floor(a * 2^64 / p)`, kept to 64 bits.
    pub fn shoup(&self, a: u64) -> (r: u64)
        requires
            self.wf(),
        ensures
            r == shoup_of(a as int, self.value()),
    {
        proof {
            lemma_mul_le(a as int, word(), u64::MAX as int, word());
        }
        let wide: u128 = (a as u128) * 0x1_0000_0000_0000_0000u128;
        let q: u128 = wide / (self.p as u128);
        (q % 0x1_0000_0000_0000_0000u128) as u64
    }

    /// The product `a * b` modulo `p`, where `b_shoup` is the Shoup encoding of
    /// the residue `b`: one multiplication by `b_shoup` stands in for the division.
    pub fn mul_shoup(&self, a: u64, b: u64, b_shoup: u64) -> (r: u64)
        requires
            self.wf(),
            b < self.value(),
            b_shoup == shoup_of(b as int, self.value()),
        ensures
            r == mul_mod(a as int, b as int, self.value()),
            r < self.value(),
    {
        let low: u64 = self.mul_shoup_lazy(a, b, b_shoup);
        self.reduce_once(low)
    }

    /// As `mul_shoup`, in variable time.
    pub fn mul_shoup_vt(&self, a: u64, b: u64, b_shoup: u64) -> (r: u64)
        requires
            self.wf(),
            b < self.value(),
            b_shoup == shoup_of(b as int, self.value()),
        ensures
            r == mul_mod(a as int, b as int, self.value()),
            r < self.value(),
    {
        let low: u64 = self.mul_shoup_lazy(a, b, b_shoup);
        self.reduce_once_vt(low)
    }

    /// The Shoup product before its last correction: congruent to `a * b` and
    /// below `2p`.
    fn mul_shoup_lazy(&self, a: u64, b: u64, b_shoup: u64) -> (r: u64)
        requires
            self.wf(),
            b < self.value(),
            b_shoup == shoup_of(b as int, self.value()),
        ensures
            r < 2 * self.value(),
            (r as int) % self.value() == mul_mod(a as int, b as int, self.value()),
    {
        let p: u64 = self.p;
        proof {
            lemma_mul_le(a as int, b_shoup as int, u64::MAX as int, u64::MAX as int);
            lemma_mul_le(a as int, b as int, u64::MAX as int, u64::MAX as int);
        }
        let wide: u128 = (a as u128) * (b_shoup as u128);
        let q: u128 = wide >> 64;
        assert(q == wide / 0x1_0000_0000_0000_0000u128) by (bit_vector)
            requires
                q == wide >> 64,
        ;
        proof {
            lemma_shoup_exact(b as int, p as int);
            lemma_shoup_window(a as int, b as int, b_shoup as int, p as int, q as int);
        }
        let r: u64 = ((a as u128) * (b as u128) - q * (p as u128)) as u64;
        proof {
            lemma_mod_multiples_vanish(-(q as int), a * b, p as int);
            lemma_mul_is_commutative(p as int, -(q as int));
            lemma_mul_unary_negation(q as int, p as int);
        }
        r
    }

    /// `a` raised to the power `e`, by repeated squaring.
    pub fn pow(&self, a: u64, e: u64) -> (r: u64)
        requires
            self.wf(),
            a < self.value(),
        ensures
            r == pow_mod(a as int, e as nat, self.value()),
            r < self.value(),
    {
        let mut result: u64 = 1;
        let mut base: u64 = a;
        let mut k: u64 = e;
        proof {
            lemma_mul_basics(pow(a as int, e as nat));
        }
        while k > 0
            invariant
                self.wf(),
                base < self.value(),
                result < self.value(),
                (result * pow(base as int, k as nat)) % self.value() == pow_mod(
                    a as int,
                    e as nat,
                    self.value(),
                ),
            decreases k,
        {
            proof {
                lemma_pow_step(result as int, base as int, k as nat, self.value());
            }
            if k % 2 == 1 {
                result = self.mul(result, base);
            }
            base = self.mul(base, base);
            k = k / 2;
        }
        proof {
            lemma_pow0(base as int);
            lemma_small_mod(result as nat, self.p as nat);
        }
        result
    }

    /// The inverse of `a`, which exists exactly when `a` and the modulus share
    /// no factor, by Euclid's algorithm.
    pub fn inv(&self, a: u64) -> (r: Option<u64>)
        requires
            self.wf(),
            a < self.value(),
        ensures
            r is Some <==> gcd(self.value() as nat, a as nat) == 1,
            r is Some ==> r->Some_0 < self.value() && mul_mod(
                a as int,
                r->Some_0 as int,
                self.value(),
            ) == 1,
    {
        let p: u64 = self.p;
        let mut r0: u64 = p;
        let mut r1: u64 = a;
        let mut t0: u64 = 0;
        let mut t1: u64 = 1;
        proof {
            lemma_mod_self_0(p as int);
            lemma_mul_basics(a as int);
            lemma_small_mod(0, p as nat);
        }
        while r1 != 0
            invariant
                self.wf(),
                p == self.value(),
                a < p,
                gcd(r0 as nat, r1 as nat) == gcd(p as nat, a as nat),
                t0 < p,
                t1 < p,
                (t0 * a) % (p as int) == (r0 as int) % (p as int),
                (t1 * a) % (p as int) == (r1 as int) % (p as int),
            decreases r1,
        {
            let q: u64 = r0 / r1;
            let r2: u64 = r0 % r1;
            let t2: u64 = self.sub_vt(t0, self.mul(self.reduce_vt(q), t1));
            proof {
                lemma_euclid_step(
                    t0 as int,
                    t1 as int,
                    q as int,
                    a as int,
                    r0 as int,
                    r1 as int,
                    p as int,
                );
                lemma_fundamental_div_mod(r0 as int, r1 as int);
                lemma_mul_is_commutative(q as int, r1 as int);
            }
            r0 = r1;
            r1 = r2;
            t0 = t1;
            t1 = t2;
        }
        if r0 == 1 {
            proof {
                lemma_small_mod(1, p as nat);
                lemma_mul_is_commutative(a as int, t0 as int);
            }
            Some(t0)
        } else {
            None
        }
    }

    /// Adds `b` to `a`, entry by entry.
    pub fn add_vec(&self, a: &mut [u64], b: &[u64])
        requires
            self.wf(),
            old(a)@.len() == b@.len(),
            reduced(old(a)@, self.value()),
            reduced(b@, self.value()),
        ensures
            final(a)@.len() == old(a)@.len(),
            reduced(final(a)@, self.value()),
            forall|i: int|
                0 <= i < b@.len() ==> (#[trigger] final(a)@[i]) == add_mod(
                    old(a)@[i] as int,
                    b@[i] as int,
                    self.value(),
                ),
    {
        let n: usize = a.len();
        let mut i: usize = 0;
        while i < n
            invariant
                self.wf(),
                i <= n,
                a@.len() == n,
                b@.len() == n,
                old(a)@.len() == n,
                reduced(old(a)@, self.value()),
                reduced(b@, self.value()),
                forall|j: int| 0 <= j < i ==> (#[trigger] a@[j]) < self.value(),
                forall|j: int|
                    0 <= j < i ==> (#[trigger] a@[j]) == add_mod(
                        old(a)@[j] as int,
                        b@[j] as int,
                        self.value(),
                    ),
                forall|j: int| i <= j < n ==> (#[trigger] a@[j]) == old(a)@[j],
            decreases n - i,
        {
            let x: u64 = a[i];
            let y: u64 = b[i];
            a[i] = self.add(x, y);
            i += 1;
        }
    }

    /// Adds `b` to `a`, entry by entry, in variable time.
    pub fn add_vec_vt(&self, a: &mut [u64], b: &[u64])
        requires
            self.wf(),
            old(a)@.len() == b@.len(),
            reduced(old(a)@, self.value()),
            reduced(b@, self.value()),
        ensures
            final(a)@.len() == old(a)@.len(),
            reduced(final(a)@, self.value()),
            forall|i: int|
                0 <= i < b@.len() ==> (#[trigger] final(a)@[i]) == add_mod(
                    old(a)@[i] as int,
                    b@[i] as int,
                    self.value(),
                ),
    {
        let n: usize = a.len();
        let mut i: usize = 0;
        while i < n
            invariant
                self.wf(),
                i <= n,
                a@.len() == n,
                b@.len() == n,
                old(a)@.len() == n,
                reduced(old(a)@, self.value()),
                reduced(b@, self.value()),
                forall|j: int| 0 <= j < i ==> (#[trigger] a@[j]) < self.value(),
                forall|j: int|
                    0 <= j < i ==> (#[trigger] a@[j]) == add_mod(
                        old(a)@[j] as int,
                        b@[j] as int,
                        self.value(),
                    ),
                forall|j: int| i <= j < n ==> (#[trigger] a@[j]) == old(a)@[j],
            decreases n - i,
        {
            let x: u64 = a[i];
            let y: u64 = b[i];
            a[i] = self.add_vt(x, y);
            i += 1;
        }
    }

    /// Subtracts `b` from `a`, entry by entry.
    pub fn sub_vec(&self, a: &mut [u64], b: &[u64])
        requires
            self.wf(),
            old(a)@.len() == b@.len(),
            reduced(old(a)@, self.value()),
            reduced(b@, self.value()),
        ensures
            final(a)@.len() == old(a)@.len(),
            reduced(final(a)@, self.value()),
            forall|i: int|
                0 <= i < b@.len() ==> (#[trigger] final(a)@[i]) == sub_mod(
                    old(a)@[i] as int,
                    b@[i] as int,
                    self.value(),
                ),
    {
        let n: usize = a.len();
        let mut i: usize = 0;
        while i < n
            invariant
                self.wf(),
                i <= n,
                a@.len() == n,
                b@.len() == n,
                old(a)@.len() == n,
                reduced(old(a)@, self.value()),
                reduced(b@, self.value()),
                forall|j: int| 0 <= j < i ==> (#[trigger] a@[j]) < self.value(),
                forall|j: int|
                    0 <= j < i ==> (#[trigger] a@[j]) == sub_mod(
                        old(a)@[j] as int,
                        b@[j] as int,
                        self.value(),
                    ),
                forall|j: int| i <= j < n ==> (#[trigger] a@[j]) == old(a)@[j],
            decreases n - i,
        {
            let x: u64 = a[i];
            let y: u64 = b[i];
            a[i] = self.sub(x, y);
            i += 1;
        }
    }

    /// Subtracts `b` from `a`, entry by entry, in variable time.
    pub fn sub_vec_vt(&self, a: &mut [u64], b: &[u64])
        requires
            self.wf(),
            old(a)@.len() == b@.len(),
            reduced(old(a)@, self.value()),
            reduced(b@, self.value()),
        ensures
            final(a)@.len() == old(a)@.len(),
            reduced(final(a)@, self.value()),
            forall|i: int|
                0 <= i < b@.len() ==> (#[trigger] final(a)@[i]) == sub_mod(
                    old(a)@[i] as int,
                    b@[i] as int,
                    self.value(),
                ),
    {
        let n: usize = a.len();
        let mut i: usize = 0;
        while i < n
            invariant
                self.wf(),
                i <= n,
                a@.len() == n,
                b@.len() == n,
                old(a)@.len() == n,
                reduced(old(a)@, self.value()),
                reduced(b@, self.value()),
                forall|j: int| 0 <= j < i ==> (#[trigger] a@[j]) < self.value(),
                forall|j: int|
                    0 <= j < i ==> (#[trigger] a@[j]) == sub_mod(
                        old(a)@[j] as int,
                        b@[j] as int,
                        self.value(),
                    ),
                forall|j: int| i <= j < n ==> (#[trigger] a@[j]) == old(a)@[j],
            decreases n - i,
        {
            let x: u64 = a[i];
            let y: u64 = b[i];
            a[i] = self.sub_vt(x, y);
            i += 1;
        }
    }

    /// Multiplies `a` by `b`, entry by entry.
    pub fn mul_vec(&self, a: &mut [u64], b: &[u64])
        requires
            self.wf(),
            old(a)@.len() == b@.len(),
            reduced(old(a)@, self.value()),
            reduced(b@, self.value()),
        ensures
            final(a)@.len() == old(a)@.len(),
            reduced(final(a)@, self.value()),
            forall|i: int|
                0 <= i < b@.len() ==> (#[trigger] final(a)@[i]) == mul_mod(
                    old(a)@[i] as int,
                    b@[i] as int,
                    self.value(),
                ),
    {
        let n: usize = a.len();
        let mut i: usize = 0;
        while i < n
            invariant
                self.wf(),
                i <= n,
                a@.len() == n,
                b@.len() == n,
                old(a)@.len() == n,
                reduced(old(a)@, self.value()),
                reduced(b@, self.value()),
                forall|j: int| 0 <= j < i ==> (#[trigger] a@[j]) < self.value(),
                forall|j: int|
                    0 <= j < i ==> (#[trigger] a@[j]) == mul_mod(
                        old(a)@[j] as int,
                        b@[j] as int,
                        self.value(),
                    ),
                forall|j: int| i <= j < n ==> (#[trigger] a@[j]) == old(a)@[j],
            decreases n - i,
        {
            let x: u64 = a[i];
            let y: u64 = b[i];
            a[i] = self.mul(x, y);
            i += 1;
        }
    }

    /// Multiplies `a` by `b`, entry by entry, in variable time.
    pub fn mul_vec_vt(&self, a: &mut [u64], b: &[u64])
        requires
            self.wf(),
            old(a)@.len() == b@.len(),
            reduced(old(a)@, self.value()),
            reduced(b@, self.value()),
        ensures
            final(a)@.len() == old(a)@.len(),
            reduced(final(a)@, self.value()),
            forall|i: int|
                0 <= i < b@.len() ==> (#[trigger] final(a)@[i]) == mul_mod(
                    old(a)@[i] as int,
                    b@[i] as int,
                    self.value(),
                ),
    {
        let n: usize = a.len();
        let mut i: usize = 0;
        while i < n
            invariant
                self.wf(),
                i <= n,
                a@.len() == n,
                b@.len() == n,
                old(a)@.len() == n,
                reduced(old(a)@, self.value()),
                reduced(b@, self.value()),
                forall|j: int| 0 <= j < i ==> (#[trigger] a@[j]) < self.value(),
                forall|j: int|
                    0 <= j < i ==> (#[trigger] a@[j]) == mul_mod(
                        old(a)@[j] as int,
                        b@[j] as int,
                        self.value(),
                    ),
                forall|j: int| i <= j < n ==> (#[trigger] a@[j]) == old(a)@[j],
            decreases n - i,
        {
            let x: u64 = a[i];
            let y: u64 = b[i];
            a[i] = self.mul_vt(x, y);
            i += 1;
        }
    }

    /// Replaces every entry of `a` by its opposite.
    pub fn neg_vec(&self, a: &mut [u64])
        requires
            self.wf(),
            reduced(old(a)@, self.value()),
        ensures
            final(a)@.len() == old(a)@.len(),
            reduced(final(a)@, self.value()),
            forall|i: int|
                0 <= i < old(a)@.len() ==> (#[trigger] final(a)@[i]) == neg_mod(
                    old(a)@[i] as int,
                    self.value(),
                ),
    {
        let n: usize = a.len();
        let mut i: usize = 0;
        while i < n
            invariant
                self.wf(),
                i <= n,
                a@.len() == n,
                old(a)@.len() == n,
                reduced(old(a)@, self.value()),
                forall|j: int| 0 <= j < i ==> (#[trigger] a@[j]) < self.value(),
                forall|j: int|
                    0 <= j < i ==> (#[trigger] a@[j]) == neg_mod(old(a)@[j] as int, self.value()),
                forall|j: int| i <= j < n ==> (#[trigger] a@[j]) == old(a)@[j],
            decreases n - i,
        {
            let x: u64 = a[i];
            a[i] = self.neg(x);
            i += 1;
        }
    }

    /// Replaces every entry of `a` by its opposite, in variable time.
    pub fn neg_vec_vt(&self, a: &mut [u64])
        requires
            self.wf(),
            reduced(old(a)@, self.value()),
        ensures
            final(a)@.len() == old(a)@.len(),
            reduced(final(a)@, self.value()),
            forall|i: int|
                0 <= i < old(a)@.len() ==> (#[trigger] final(a)@[i]) == neg_mod(
                    old(a)@[i] as int,
                    self.value(),
                ),
    {
        let n: usize = a.len();
        let mut i: usize = 0;
        while i < n
            invariant
                self.wf(),
                i <= n,
                a@.len() == n,
                old(a)@.len() == n,
                reduced(old(a)@, self.value()),
                forall|j: int| 0 <= j < i ==> (#[trigger] a@[j]) < self.value(),
                forall|j: int|
                    0 <= j < i ==> (#[trigger] a@[j]) == neg_mod(old(a)@[j] as int, self.value()),
                forall|j: int| i <= j < n ==> (#[trigger] a@[j]) == old(a)@[j],
            decreases n - i,
        {
            let x: u64 = a[i];
            a[i] = self.neg_vt(x);
            i += 1;
        }
    }

    /// Multiplies `a` by `b`, entry by entry, with the help of the Shoup encoding of `b`.
    pub fn mul_shoup_vec(&self, a: &mut [u64], b: &[u64], b_shoup: &[u64])
        requires
            self.wf(),
            old(a)@.len() == b@.len(),
            b_shoup@.len() == b@.len(),
            reduced(b@, self.value()),
            shoup_pairs(b@, b_shoup@, self.value()),
        ensures
            final(a)@.len() == old(a)@.len(),
            reduced(final(a)@, self.value()),
            forall|i: int|
                0 <= i < b@.len() ==> (#[trigger] final(a)@[i]) == mul_mod(
                    old(a)@[i] as int,
                    b@[i] as int,
                    self.value(),
                ),
    {
        let n: usize = a.len();
        let mut i: usize = 0;
        while i < n
            invariant
                self.wf(),
                i <= n,
                a@.len() == n,
                b@.len() == n,
                b_shoup@.len() == n,
                old(a)@.len() == n,
                reduced(b@, self.value()),
                shoup_pairs(b@, b_shoup@, self.value()),
                forall|j: int| 0 <= j < i ==> (#[trigger] a@[j]) < self.value(),
                forall|j: int|
                    0 <= j < i ==> (#[trigger] a@[j]) == mul_mod(
                        old(a)@[j] as int,
                        b@[j] as int,
                        self.value(),
                    ),
                forall|j: int| i <= j < n ==> (#[trigger] a@[j]) == old(a)@[j],
            decreases n - i,
        {
            let x: u64 = a[i];
            let y: u64 = b[i];
            let z: u64 = b_shoup[i];
            a[i] = self.mul_shoup(x, y, z);
            i += 1;
        }
    }

    /// As `mul_shoup_vec`, in variable time.
    pub fn mul_shoup_vec_vt(&self, a: &mut [u64], b: &[u64], b_shoup: &[u64])
        requires
            self.wf(),
            old(a)@.len() == b@.len(),
            b_shoup@.len() == b@.len(),
            reduced(b@, self.value()),
            shoup_pairs(b@, b_shoup@, self.value()),
        ensures
            final(a)@.len() == old(a)@.len(),
            reduced(final(a)@, self.value()),
            forall|i: int|
                0 <= i < b@.len() ==> (#[trigger] final(a)@[i]) == mul_mod(
                    old(a)@[i] as int,
                    b@[i] as int,
                    self.value(),
                ),
    {
        let n: usize = a.len();
        let mut i: usize = 0;
        while i < n
            invariant
                self.wf(),
                i <= n,
                a@.len() == n,
                b@.len() == n,
                b_shoup@.len() == n,
                old(a)@.len() == n,
                reduced(b@, self.value()),
                shoup_pairs(b@, b_shoup@, self.value()),
                forall|j: int| 0 <= j < i ==> (#[trigger] a@[j]) < self.value(),
                forall|j: int|
                    0 <= j < i ==> (#[trigger] a@[j]) == mul_mod(
                        old(a)@[j] as int,
                        b@[j] as int,
                        self.value(),
                    ),
                forall|j: int| i <= j < n ==> (#[trigger] a@[j]) == old(a)@[j],
            decreases n - i,
        {
            let x: u64 = a[i];
            let y: u64 = b[i];
            let z: u64 = b_shoup[i];
            a[i] = self.mul_shoup_vt(x, y, z);
            i += 1;
        }
    }

    /// The Shoup encoding of every entry of `a`.
    pub fn shoup_vec(&self, a: &[u64]) -> (r: Vec<u64>)
        requires
            self.wf(),
        ensures
            r@.len() == a@.len(),
            shoup_pairs(a@, r@, self.value()),
    {
        let n: usize = a.len();
        let mut out: Vec<u64> = Vec::with_capacity(n);
        let mut i: usize = 0;
        while i < n
            invariant
                self.wf(),
                i <= n,
                a@.len() == n,
                out@.len() == i,
                forall|j: int|
                    0 <= j < i ==> (#[trigger] out@[j]) == shoup_of(a@[j] as int, self.value()),
            decreases n - i,
        {
            out.push(self.shoup(a[i]));
            i += 1;
        }
        out
    }

    /// Reduces every entry of `a`.
    pub fn reduce_vec(&self, a: &mut [u64])
        requires
            self.wf(),
        ensures
            final(a)@.len() == old(a)@.len(),
            reduced(final(a)@, self.value()),
            forall|i: int|
                0 <= i < old(a)@.len() ==> (#[trigger] final(a)@[i]) == (old(a)@[i] as int)
                    % self.value(),
    {
        let n: usize = a.len();
        let mut i: usize = 0;
        while i < n
            invariant
                self.wf(),
                i <= n,
                a@.len() == n,
                old(a)@.len() == n,
                forall|j: int| 0 <= j < i ==> (#[trigger] a@[j]) < self.value(),
                forall|j: int|
                    0 <= j < i ==> (#[trigger] a@[j]) == (old(a)@[j] as int) % self.value(),
                forall|j: int| i <= j < n ==> (#[trigger] a@[j]) == old(a)@[j],
            decreases n - i,
        {
            let x: u64 = a[i];
            a[i] = self.reduce(x);
            i += 1;
        }
    }

    /// The residues of the signed values of `a`.
    pub fn reduce_vec_i64(&self, a: &[i64]) -> (r: Vec<u64>)
        requires
            self.wf(),
        ensures
            r@.len() == a@.len(),
            reduced(r@, self.value()),
            forall|i: int|
                0 <= i < a@.len() ==> (#[trigger] r@[i]) == (a@[i] as int) % self.value(),
    {
        let n: usize = a.len();
        let mut out: Vec<u64> = Vec::with_capacity(n);
        let mut i: usize = 0;
        while i < n
            invariant
                self.wf(),
                i <= n,
                a@.len() == n,
                out@.len() == i,
                forall|j: int| 0 <= j < i ==> (#[trigger] out@[j]) < self.value(),
                forall|j: int|
                    0 <= j < i ==> (#[trigger] out@[j]) == (a@[j] as int) % self.value(),
            decreases n - i,
        {
            out.push(self.reduce_i64(a[i]));
            i += 1;
        }
        out
    }

    /// The residues that a stream of bytes stands for: every sixteen bytes of
    /// it, read as a little-endian number and reduced, are one residue, so that
    /// for uniform bytes no residue is more likely than another by more than one
    /// part in `2^66`. Bytes beyond the last whole sixteen are not used.
    pub fn reduce_stream(&self, stream: &[u8]) -> (r: Vec<u64>)
        requires
            self.wf(),
        ensures
            r@ == stream_residues(stream@, self.value()),
            reduced(r@, self.value()),
    {
        let size: usize = stream.len() / 16;
        let mut out: Vec<u64> = Vec::with_capacity(size);
        let mut j: usize = 0;
        while j < size
            invariant
                self.wf(),
                0 <= j <= size,
                size == stream@.len() / 16,
                16 * size <= stream@.len() <= usize::MAX,
                out@.len() == j,
                forall|k: int|
                    0 <= k < j ==> (#[trigger] out@[k]) == stream_residues(
                        stream@,
                        self.value(),
                    )[k],
                forall|k: int| 0 <= k < j ==> (#[trigger] out@[k]) < self.value(),
            decreases size - j,
        {
            let chunk: &[u8] = slice_subrange(stream, 16 * j, 16 * j + 16);
            let wide: u128 = u128_from_le_bytes(chunk);
            out.push((wide % (self.p as u128)) as u64);
            j += 1;
        }
        assert(out@ =~= stream_residues(stream@, self.value()));
        out
    }

    /// A vector of `size` residues drawn from the keystream of a 32-byte seed:
    /// the same seed gives the same vector.
    pub fn random_vec_from_seed(&self, size: usize, seed: &[u8]) -> (r: Vec<u64>)
        requires
            self.wf(),
            seed@.len() == 32,
            size * 16 <= usize::MAX,
        ensures
            r@ == uniform_row(seed@, size as nat, self.value()),
            r@.len() == size,
            reduced(r@, self.value()),
    {
        let stream: Vec<u8> = chacha8_bytes(seed, 16 * size);
        self.reduce_stream(stream.as_slice())
    }

    /// The number of bytes that `size` residues are serialized to.
    pub fn serialization_length(&self, size: usize) -> (r: usize)
        requires
            size * 8 <= usize::MAX,
        ensures
            r == 8 * size,
    {
        8 * size
    }

    /// The bytes of the residues `a`: eight for each, the lowest first.
    pub fn serialize_vec(&self, a: &[u64]) -> (r: Vec<u8>)
        ensures
            r@ == encode_words(a@),
    {
        let n: usize = a.len();
        let mut out: Vec<u8> = Vec::new();
        let mut i: usize = 0;
        while i < n
            invariant
                0 <= i <= n,
                n == a@.len(),
                out@.len() == 8 * i,
                forall|k: int|
                    0 <= k < 8 * i ==> (#[trigger] out@[k]) == spec_u64_to_le_bytes(a@[k / 8])[k
                        % 8],
            decreases n - i,
        {
            let word: Vec<u8> = u64_to_le_bytes(a[i]);
            let ghost before = out@;
            out.extend_from_slice(word.as_slice());
            proof {
                assert forall|k: int| 0 <= k < 8 * (i + 1) implies (#[trigger] out@[k])
                    == spec_u64_to_le_bytes(a@[k / 8])[k % 8] by {
                    if k >= 8 * i {
                        assert(k / 8 == i);
                        assert(out@[k] == word@[k - 8 * i]);
                    } else {
                        assert(out@[k] == before[k]);
                    }
                }
            }
            i += 1;
        }
        assert(out@ =~= encode_words(a@));
        out
    }

    /// The residues that the bytes `b` stand for, if they stand for any: `b`
    /// must hold eight bytes for each residue, and each must be below the modulus.
    pub fn deserialize_vec(&self, b: &[u8]) -> (r: Option<Vec<u64>>)
        requires
            self.wf(),
        ensures
            r is Some <==> decodable(b@, self.value()),
            r is Some ==> r->Some_0@ == decode_words(b@) && reduced(r->Some_0@, self.value()),
    {
        if b.len() % 8 != 0 {
            return None;
        }
        let n: usize = b.len() / 8;
        let mut out: Vec<u64> = Vec::with_capacity(n);
        let mut i: usize = 0;
        while i < n
            invariant
                self.wf(),
                0 <= i <= n,
                b@.len() == 8 * n,
                8 * n <= usize::MAX,
                out@.len() == i,
                forall|k: int| 0 <= k < i ==> (#[trigger] out@[k]) == decode_word(b@, k),
                forall|k: int| 0 <= k < i ==> (#[trigger] decode_word(b@, k)) < self.value(),
            decreases n - i,
        {
            let word: u64 = u64_from_le_bytes(slice_subrange(b, 8 * i, 8 * i + 8));
            if word >= self.p {
                assert(decode_word(b@, i as int) >= self.value());
                return None;
            }
            out.push(word);
            i += 1;
        }
        assert(out@ =~= decode_words(b@));
        Some(out)
    }
}

/// The quotient estimated with the reciprocal `ratio = floor(2^64 / p)` is the
/// true quotient or one less.
pub proof fn lemma_quotient_window(x: int, ratio: int, p: int, q: int)
    requires
        0 <= x < word(),
        p >= 2,
        ratio == word() / p,
        q == (x * ratio) / word(),
    ensures
        0 <= q,
        q * p <= x,
        x - q * p < 2 * p,
{
    lemma_fundamental_div_mod(word(), p);
    lemma_mod_bound(word(), p);
    lemma_fundamental_div_mod(x * ratio, word());
    lemma_mod_bound(x * ratio, word());
    let w = word();
    let e = w % p;
    let f = (x * ratio) % w;
    assert(w == p * ratio + e);
    assert(x * ratio == w * q + f);
    assert(ratio >= 0) by (nonlinear_arith)
        requires
            w == p * ratio + e,
            0 <= e < p,
            p >= 2,
            w > 0,
    ;
    assert(q >= 0) by (nonlinear_arith)
        requires
            x * ratio == w * q + f,
            0 <= f < w,
            x >= 0,
            ratio >= 0,
    ;
    // (x - q * p) * w == p * f + x * e, step by step
    assert(x * w == p * (x * ratio) + x * e) by (nonlinear_arith)
        requires
            w == p * ratio + e,
    ;
    assert(p * (x * ratio) == p * w * q + p * f) by (nonlinear_arith)
        requires
            x * ratio == w * q + f,
    ;
    assert((x - q * p) * w == x * w - p * w * q) by (nonlinear_arith);
    assert((x - q * p) * w == p * f + x * e);
    assert(0 <= p * f + x * e < 2 * p * w) by (nonlinear_arith)
        requires
            0 <= e < p,
            0 <= f < w,
            0 <= x < w,
            p >= 2,
    ;
    assert(q * p <= x && x - q * p < 2 * p) by (nonlinear_arith)
        requires
            (x - q * p) * w == p * f + x * e,
            0 <= p * f + x * e < 2 * p * w,
            w > 0,
    ;
}

/// For a residue `b`, the Shoup encoding is the whole quotient `floor(b * 2^64 / p)`.
pub proof fn lemma_shoup_exact(b: int, p: int)
    requires
        p >= 2,
        0 <= b < p,
    ensures
        shoup_of(b, p) == (b * word()) / p,
        0 <= shoup_of(b, p) < word(),
{
    let w = word();
    lemma_fundamental_div_mod(b * w, p);
    lemma_mod_bound(b * w, p);
    let q = (b * w) / p;
    let e = (b * w) % p;
    assert(0 <= q < w) by (nonlinear_arith)
        requires
            b * w == p * q + e,
            0 <= e < p,
            0 <= b < p,
            w > 0,
    ;
    lemma_small_mod(q as nat, w as nat);
}

/// The quotient estimated with a Shoup encoding is the true quotient or one less.
pub proof fn lemma_shoup_window(a: int, b: int, b_shoup: int, p: int, q: int)
    requires
        0 <= a < word(),
        p >= 2,
        0 <= b < p,
        b_shoup == (b * word()) / p,
        q == (a * b_shoup) / word(),
    ensures
        0 <= q,
        q * p <= a * b,
        a * b - q * p < 2 * p,
        0 <= q * p,
{
    let w = word();
    lemma_fundamental_div_mod(b * w, p);
    lemma_mod_bound(b * w, p);
    lemma_fundamental_div_mod(a * b_shoup, w);
    lemma_mod_bound(a * b_shoup, w);
    let e = (b * w) % p;
    let f = (a * b_shoup) % w;
    assert(b * w == p * b_shoup + e);
    assert(a * b_shoup == w * q + f);
    assert(b_shoup >= 0) by (nonlinear_arith)
        requires
            b * w == p * b_shoup + e,
            0 <= e < p,
            0 <= b,
            w > 0,
    ;
    assert(q >= 0) by (nonlinear_arith)
        requires
            a * b_shoup == w * q + f,
            0 <= f < w,
            a >= 0,
            b_shoup >= 0,
    ;
    // (a * b - q * p) * w == a * e + f * p, step by step
    assert(a * (b * w) == p * (a * b_shoup) + a * e) by (nonlinear_arith)
        requires
            b * w == p * b_shoup + e,
    ;
    assert(p * (a * b_shoup) == p * w * q + f * p) by (nonlinear_arith)
        requires
            a * b_shoup == w * q + f,
    ;
    assert((a * b - q * p) * w == a * (b * w) - p * w * q) by (nonlinear_arith);
    assert((a * b - q * p) * w == a * e + f * p);
    assert(0 <= a * e + f * p < 2 * p * w) by (nonlinear_arith)
        requires
            0 <= e < p,
            0 <= f < w,
            0 <= a < w,
            p >= 2,
    ;
    assert(q * p <= a * b && a * b - q * p < 2 * p) by (nonlinear_arith)
        requires
            (a * b - q * p) * w == a * e + f * p,
            0 <= a * e + f * p < 2 * p * w,
            w > 0,
    ;
    assert(0 <= q * p) by (nonlinear_arith)
        requires
            q >= 0,
            p >= 2,
    ;
}

/// The reciprocal of Barrett's reduction, for a modulus `p` with
/// `low <= p < 2 * low`, is at most `4 * low`.
pub proof fn lemma_barrett_constant(p: int, low: int, mu: int)
    requires
        1 <= low <= p < 2 * low,
        mu == (4 * low * low) / p,
    ensures
        0 <= mu <= 4 * low,
{
    let w = 4 * low * low;
    lemma_fundamental_div_mod(w, p);
    lemma_mod_bound(w, p);
    let e = w % p;
    assert(0 <= mu <= 4 * low) by (nonlinear_arith)
        requires
            w == 4 * low * low,
            w == p * mu + e,
            0 <= e < p,
            1 <= low <= p,
    ;
}

/// The quotient that Barrett's reduction estimates is the true quotient or up
/// to 2 less, for `x` below `4 * low^2` and a modulus `p` with
/// `low <= p < 2 * low`.
pub proof fn lemma_barrett_window(x: int, p: int, low: int, mu: int, q1: int, q3: int)
    requires
        1 <= low <= p < 2 * low,
        0 <= x < 4 * low * low,
        mu == (4 * low * low) / p,
        q1 == x / low,
        q3 == (q1 * mu) / (4 * low),
    ensures
        0 <= q1 < 4 * low,
        0 <= mu <= 4 * low,
        0 <= q1 * mu <= 16 * low * low,
        0 <= q3,
        0 <= q3 * p <= x,
        x - q3 * p < 3 * p,
{
    let w = 4 * low * low;
    let high = 4 * low;
    lemma_barrett_constant(p, low, mu);
    lemma_fundamental_div_mod(w, p);
    lemma_mod_bound(w, p);
    lemma_fundamental_div_mod(x, low);
    lemma_mod_bound(x, low);
    lemma_fundamental_div_mod(q1 * mu, high);
    lemma_mod_bound(q1 * mu, high);
    let e = w % p;
    let f = x % low;
    let g = (q1 * mu) % high;
    assert(0 <= q1 < high) by (nonlinear_arith)
        requires
            x == low * q1 + f,
            0 <= f < low,
            0 <= x < 4 * low * low,
            high == 4 * low,
    ;
    assert(0 <= q1 * mu <= 16 * low * low) by (nonlinear_arith)
        requires
            0 <= q1 < 4 * low,
            0 <= mu <= 4 * low,
    ;
    assert(q3 >= 0) by (nonlinear_arith)
        requires
            q1 * mu == high * q3 + g,
            0 <= g < high,
            q1 * mu >= 0,
    ;
    // x * high == p * high * q3 + p * g + q1 * e + f * high, step by step
    assert(x * high == (low * q1) * high + f * high) by (nonlinear_arith)
        requires
            x == low * q1 + f,
    ;
    assert((low * q1) * high == (low * high) * q1) by (nonlinear_arith);
    assert(low * high == w) by (nonlinear_arith)
        requires
            w == 4 * low * low,
            high == 4 * low,
    ;
    assert(w * q1 == p * (mu * q1) + e * q1) by (nonlinear_arith)
        requires
            w == p * mu + e,
    ;
    assert(p * (mu * q1) == p * high * q3 + p * g) by (nonlinear_arith)
        requires
            q1 * mu == high * q3 + g,
    ;
    assert(e * q1 == q1 * e) by (nonlinear_arith);
    assert(x * high == p * high * q3 + p * g + q1 * e + f * high);
    assert(0 <= p * g + q1 * e + f * high < 3 * p * high) by (nonlinear_arith)
        requires
            0 <= g < high,
            0 <= e < p,
            0 <= f < low,
            0 <= q1 < high,
            1 <= low <= p,
            high == 4 * low,
    ;
    assert(0 <= q3 * p <= x && x - q3 * p < 3 * p) by (nonlinear_arith)
        requires
            x * high == p * high * q3 + p * g + q1 * e + f * high,
            0 <= p * g + q1 * e + f * high < 3 * p * high,
            high > 0,
            q3 >= 0,
            p >= 1,
    ;
}

} // verus!
