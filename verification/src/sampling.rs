//! Polynomials with random residues, and polynomials with small random
//! coefficients, each from a seed or from fresh randomness.
use crate::arith::reduced;
use crate::array::{array_row_mut, array_rows, array_zeros, has_shape, ResidueArray};
use crate::context::{Context, ContextView};
use crate::convert::{convert_signed, converted, fresh_view, TryConvertFrom};
use crate::error::Error;
use crate::poly::{copy_words, Poly, PolyView, Representation};
use crate::random::{chacha8_bytes, chacha8_stream, fresh_seed};
use crate::wipe::wipe_signed;
use crate::zq::{uniform_row, Modulus};
use std::rc::Rc;
use vstd::bytes::{spec_u64_from_le_bytes, u64_from_le_bytes};
use vstd::prelude::*;
use vstd::slice::slice_subrange;

verus! {

/// The table of residues that one 32-byte seed for each modulus gives rise to:
/// row `i` is drawn from the keystream of the seed that the bytes
/// `32i .. 32i + 32` of `seeds` are.
pub open spec fn seeded_rows(seeds: Seq<u8>, ctx: ContextView) -> Seq<Seq<u64>> {
    Seq::new(
        ctx.moduli.len(),
        |i: int|
            uniform_row(seeds.subrange(32 * i, 32 * i + 32), ctx.degree, ctx.moduli[i] as int),
    )
}

/// The table of residues that a seed gives rise to: the keystream of the seed
/// is cut into one 32-byte seed for each modulus.
pub open spec fn random_rows(seed: Seq<u8>, ctx: ContextView) -> Seq<Seq<u64>> {
    seeded_rows(chacha8_stream(seed, 32 * ctx.moduli.len()), ctx)
}

/// The number of ones among the lowest `bits` bits of `x`.
pub open spec fn ones(x: nat, bits: nat) -> nat
    decreases bits,
{
    if bits == 0 {
        0
    } else {
        (x % 2) + ones(x / 2, (bits - 1) as nat)
    }
}

/// `x` without its lowest `bits` bits.
pub open spec fn shifted(x: nat, bits: nat) -> nat
    decreases bits,
{
    if bits == 0 {
        x
    } else {
        shifted(x, (bits - 1) as nat) / 2
    }
}

/// The sample of the centered binomial distribution that the word `w` stands
/// for: the ones among its lowest `2 * variance` bits, minus the ones among the
/// next `2 * variance` bits.
pub open spec fn cbd_sample(w: u64, variance: nat) -> int {
    ones(w as nat, 2 * variance) - ones(shifted(w as nat, 2 * variance), 2 * variance)
}

/// The small coefficients that a stream of bytes stands for: every eight
/// bytes of it, read as a little-endian word, are one sample.
pub open spec fn stream_samples(stream: Seq<u8>, variance: nat) -> Seq<i64> {
    Seq::new(
        stream.len() / 8,
        |j: int|
            cbd_sample(spec_u64_from_le_bytes(stream.subrange(8 * j, 8 * j + 8)), variance) as i64,
    )
}

/// The `n` small coefficients that a seed gives rise to.
pub open spec fn small_values(seed: Seq<u8>, n: nat, variance: nat) -> Seq<i64> {
    stream_samples(chacha8_stream(seed, 8 * n), variance)
}

/// What `small_from_seed` gives: an error for a variance out of `1 ..= 16`, and
/// else what the conversion of the small coefficients gives.
pub open spec fn small_view(
    seed: Seq<u8>,
    ctx: ContextView,
    representation: Representation,
    variance: nat,
) -> Result<PolyView, Error> {
    if !(1 <= variance <= 16) {
        Err(Error::InvalidVariance)
    } else {
        convert_signed(small_values(seed, ctx.degree, variance), ctx, Some(representation))
    }
}

/// Counts the ones among the lowest `bits` bits of `x`, and drops these bits.
fn count_ones(x: u64, bits: usize) -> (r: (i64, u64))
    requires
        bits <= 32,
    ensures
        r.0 == ones(x as nat, bits as nat),
        0 <= r.0 <= bits,
        r.1 == shifted(x as nat, bits as nat),
{
    let mut rest: u64 = x;
    let mut count: i64 = 0;
    let mut k: usize = 0;
    while k < bits
        invariant
            0 <= k <= bits <= 32,
            0 <= count <= k,
            rest == shifted(x as nat, k as nat),
            count + ones(rest as nat, (bits - k) as nat) == ones(x as nat, bits as nat),
        decreases bits - k,
    {
        count = count + (rest % 2) as i64;
        rest = rest / 2;
        k += 1;
    }
    (count, rest)
}

/// The sample of the centered binomial distribution that `w` stands for.
pub fn sample_cbd(w: u64, variance: usize) -> (r: i64)
    requires
        1 <= variance <= 16,
    ensures
        r == cbd_sample(w, variance as nat),
        -2 * variance <= r <= 2 * variance,
{
    let (plus, rest) = count_ones(w, 2 * variance);
    let (minus, _) = count_ones(rest, 2 * variance);
    plus - minus
}

/// The samples of the centered binomial distribution of the given variance
/// that a stream of bytes stands for: one for every eight bytes. Bytes beyond
/// the last whole eight are not used.
pub fn samples_of_stream(stream: &[u8], variance: usize) -> (r: Vec<i64>)
    requires
        1 <= variance <= 16,
    ensures
        r@ == stream_samples(stream@, variance as nat),
        forall|j: int| 0 <= j < r@.len() ==> -2 * variance <= (#[trigger] r@[j]) <= 2 * variance,
{
    let n: usize = stream.len() / 8;
    let mut coeffs: Vec<i64> = Vec::with_capacity(n);
    let mut j: usize = 0;
    while j < n
        invariant
            0 <= j <= n,
            1 <= variance <= 16,
            n == stream@.len() / 8,
            8 * n <= stream@.len() <= usize::MAX,
            coeffs@.len() == j,
            forall|k: int|
                0 <= k < j ==> (#[trigger] coeffs@[k]) == stream_samples(
                    stream@,
                    variance as nat,
                )[k],
            forall|k: int| 0 <= k < j ==> -2 * variance <= (#[trigger] coeffs@[k]) <= 2 * variance,
        decreases n - j,
    {
        let word: u64 = u64_from_le_bytes(slice_subrange(stream, 8 * j, 8 * j + 8));
        coeffs.push(sample_cbd(word, variance));
        j += 1;
    }
    assert(coeffs@ =~= stream_samples(stream@, variance as nat));
    coeffs
}

/// A vector of `n` samples of the centered binomial distribution of the given
/// variance, drawn from the keystream of a seed: eight bytes of it for each.
pub fn sample_vec_cbd(n: usize, variance: usize, seed: [u8; 32]) -> (r: Vec<i64>)
    requires
        1 <= variance <= 16,
        8 * n <= usize::MAX,
    ensures
        r@ == small_values(seed@, n as nat, variance as nat),
        r@.len() == n,
{
    let stream: Vec<u8> = chacha8_bytes(seed.as_slice(), 8 * n);
    samples_of_stream(stream.as_slice(), variance)
}

impl Poly {
    /// The polynomial whose row `i` is drawn from the keystream of the seed that
    /// the bytes `32i .. 32i + 32` of `seeds` are: no two rows share a seed.
    pub fn random_from_seeds(
        ctx: &Rc<Context>,
        representation: Representation,
        seeds: &[u8],
    ) -> (r: Poly)
        requires
            ctx.wf(),
            seeds@.len() == 32 * ctx@.moduli.len(),
        ensures
            r.wf(),
            r.context() == **ctx,
            r@ == fresh_view(ctx@, representation, seeded_rows(seeds@, ctx@)),
    {
        proof {
            ctx.lemma_wf();
        }
        let m: usize = ctx.len();
        let n: usize = ctx.degree();
        assert(16 * n <= usize::MAX) by (nonlinear_arith)
            requires
                m * n <= isize::MAX / 16,
                isize::MAX <= usize::MAX,
                m >= 1,
                n >= 8,
        ;
        let ghost expected = seeded_rows(seeds@, ctx@);
        let mut table: ResidueArray = array_zeros(m, n);
        let mut i: usize = 0;
        while i < m
            invariant
                ctx.wf(),
                0 <= i <= m,
                m == ctx@.moduli.len(),
                n == ctx@.degree,
                16 * n <= usize::MAX,
                seeds@.len() == 32 * m,
                32 * m <= usize::MAX,
                expected == seeded_rows(seeds@, ctx@),
                has_shape(table, m as nat, n as nat),
                forall|k: int| 0 <= k < i ==> (#[trigger] array_rows(table)[k]) == expected[k],
                forall|k: int|
                    0 <= k < i ==> reduced(#[trigger] array_rows(table)[k], ctx@.moduli[k] as int),
            decreases m - i,
        {
            let q: &Modulus = ctx.modulus_at(i);
            let own: &[u8] = slice_subrange(seeds, 32 * i, 32 * i + 32);
            let residues: Vec<u64> = q.random_vec_from_seed(n, own);
            let row: &mut [u64] = array_row_mut(&mut table, i);
            copy_words(row, residues.as_slice());
            i += 1;
        }
        assert(array_rows(table) =~= expected);
        Poly::from_table(ctx, representation, table)
    }

    /// Generate a random polynomial deterministically from a seed: the same
    /// seed gives the same polynomial, in every process and on every machine.
    /// The keystream of the seed is cut into one seed for each modulus.
    pub fn random_from_seed(
        ctx: &Rc<Context>,
        representation: Representation,
        seed: [u8; 32],
    ) -> (r: Poly)
        requires
            ctx.wf(),
        ensures
            r.wf(),
            r.context() == **ctx,
            r@ == fresh_view(ctx@, representation, random_rows(seed@, ctx@)),
    {
        proof {
            ctx.lemma_wf();
        }
        let m: usize = ctx.len();
        let n: usize = ctx.degree();
        assert(32 * m <= usize::MAX) by (nonlinear_arith)
            requires
                m * n <= isize::MAX / 16,
                isize::MAX <= usize::MAX,
                m >= 1,
                n >= 8,
        ;
        let seeds: Vec<u8> = chacha8_bytes(seed.as_slice(), 32 * m);
        Poly::random_from_seeds(ctx, representation, seeds.as_slice())
    }

    /// Generate a random polynomial, from a seed that the operating system
    /// provides: it is `random_from_seed` of some seed.
    pub fn random(ctx: &Rc<Context>, representation: Representation) -> (r: Poly)
        requires
            ctx.wf(),
        ensures
            r.wf(),
            r.context() == **ctx,
            exists|seed: Seq<u8>|
                seed.len() == 32 && r@ == fresh_view(
                    ctx@,
                    representation,
                    #[trigger] random_rows(seed, ctx@),
                ),
    {
        let seed: [u8; 32] = fresh_seed();
        Poly::random_from_seed(ctx, representation, seed)
    }

    /// The polynomial with the given small coefficients, which are overwritten
    /// with zeros once their residues are taken, whether a polynomial comes of
    /// them or not: they are noise that stays secret. The representation must be
    /// `PowerBasis`, and there may be no more coefficients than the degree.
    pub fn small_from_samples(
        ctx: &Rc<Context>,
        representation: Representation,
        samples: &mut Vec<i64>,
    ) -> (r: Result<Poly, Error>)
        requires
            ctx.wf(),
        ensures
            converted(r, **ctx, convert_signed(old(samples)@, ctx@, Some(representation))),
            r matches Ok(p) ==> p.wf(),
            final(samples)@.len() == old(samples)@.len(),
            forall|j: int| 0 <= j < final(samples)@.len() ==> (#[trigger] final(samples)@[j]) == 0,
    {
        let p: Result<Poly, Error> = <Poly as TryConvertFrom<&[i64]>>::try_convert_from(
            samples.as_slice(),
            ctx,
            Some(representation),
        );
        wipe_signed(samples.as_mut_slice());
        p
    }

    /// Generate a small polynomial deterministically from a seed: its
    /// coefficients follow the centered binomial distribution of the given
    /// variance. The representation must be `PowerBasis`, and the variance
    /// between 1 and 16.
    pub fn small_from_seed(
        ctx: &Rc<Context>,
        representation: Representation,
        variance: usize,
        seed: [u8; 32],
    ) -> (r: Result<Poly, Error>)
        requires
            ctx.wf(),
        ensures
            converted(r, **ctx, small_view(seed@, ctx@, representation, variance as nat)),
            r is Ok <==> 1 <= variance <= 16 && representation == Representation::PowerBasis,
            r matches Ok(p) ==> p.wf(),
    {
        if variance < 1 || variance > 16 {
            return Err(Error::InvalidVariance);
        }
        proof {
            ctx.lemma_wf();
        }
        let m: usize = ctx.len();
        let n: usize = ctx.degree();
        assert(8 * n <= usize::MAX) by (nonlinear_arith)
            requires
                m * n <= isize::MAX / 16,
                isize::MAX <= usize::MAX,
                m >= 1,
                n >= 8,
        ;
        let mut coeffs: Vec<i64> = sample_vec_cbd(n, variance, seed);
        Poly::small_from_samples(ctx, representation, &mut coeffs)
    }

    /// Generate a small polynomial.
    ///
    /// Returns an error if the variance does not belong to [1, ..., 16], or if
    /// the representation is not `PowerBasis`; else it is `small_from_seed` of
    /// some seed.
    pub fn small(
        ctx: &Rc<Context>,
        representation: Representation,
        variance: usize,
    ) -> (r: Result<Poly, Error>)
        requires
            ctx.wf(),
        ensures
            r is Ok <==> 1 <= variance <= 16 && representation == Representation::PowerBasis,
            r matches Ok(p) ==> p.wf(),
            exists|seed: Seq<u8>|
                seed.len() == 32 && converted(
                    r,
                    **ctx,
                    #[trigger] small_view(seed, ctx@, representation, variance as nat),
                ),
    {
        let seed: [u8; 32] = fresh_seed();
        let r = Poly::small_from_seed(ctx, representation, variance, seed);
        proof {
            ctx.lemma_wf();
            assert(seed@.len() == 32);
        }
        r
    }
}

} // verus!
