//! Building polynomials from values of several shapes, and handing their
//! residues out again.
use crate::arith::{modulus_ok, reduced};
use crate::array::{
    array_cols, array_dim, array_from_flat, array_row, array_row_mut, array_rows, array_zeros,
    flat_of_rows, has_shape, rows_of_flat, zero_rows, ResidueArray,
};
use crate::big::big_value;
use crate::context::{Context, ContextView};
use crate::error::Error;
use crate::poly::{
    change_view, map_rows, override_view, rows_reduced, Poly, PolyView, Representation, RowOp,
};
use crate::rns::{moduli_ok, product_of, residues_of};
use crate::wipe::wipe_words;
use crate::zq::Modulus;
use num_bigint::BigUint;
use std::rc::Rc;
use vstd::arithmetic::div_mod::*;
use vstd::prelude::*;

verus! {

/// The polynomial that a conversion makes of a table of residues: in the given
/// representation, in constant time, with the Shoup encoding where it belongs.
pub open spec fn fresh_view(
    ctx: ContextView,
    representation: Representation,
    rows: Seq<Seq<u64>>,
) -> PolyView {
    override_view(
        PolyView { ctx, representation, variable_time: false, coefficients: rows, shoup: None },
        representation,
    )
}

/// The table of a polynomial with the given coefficients: entry `j` of row `i`
/// is the residue of coefficient `j` modulo `moduli[i]`, and zero beyond the
/// coefficients given.
pub open spec fn residue_rows(values: Seq<int>, ctx: ContextView) -> Seq<Seq<u64>> {
    Seq::new(
        ctx.moduli.len(),
        |i: int|
            Seq::new(
                ctx.degree,
                |j: int|
                    if j < values.len() {
                        (values[j] % (ctx.moduli[i] as int)) as u64
                    } else {
                        0u64
                    },
            ),
    )
}

/// The table of `residue_rows` holds residues.
pub proof fn lemma_residue_rows_reduced(values: Seq<int>, ctx: ContextView)
    requires
        moduli_ok(ctx.moduli),
    ensures
        rows_reduced(residue_rows(values, ctx), ctx.moduli),
{
    let rows = residue_rows(values, ctx);
    assert forall|i: int| 0 <= i < rows.len() implies reduced(
        #[trigger] rows[i],
        ctx.moduli[i] as int,
    ) by {
        assert(modulus_ok(ctx.moduli[i] as int));
        assert forall|j: int| 0 <= j < rows[i].len() implies (#[trigger] rows[i][j]) < ctx.moduli[i] by {
            if j < values.len() {
                lemma_mod_bound(values[j], ctx.moduli[i] as int);
            }
        }
    }
}

/// Conversion of a value into a polynomial of a given context, in a given
/// representation where the value leaves a choice.
pub trait TryConvertFrom<T>: Sized {
    /// Attempts to convert `value` into a polynomial of the context `ctx`.
    fn try_convert_from(
        value: T,
        ctx: &Rc<Context>,
        representation: Option<Representation>,
    ) -> (r: Result<Self, Error>)
        requires
            ctx.wf(),
    ;
}

/// What the conversion of a table of residues gives.
pub open spec fn convert_table(
    rows: Seq<Seq<u64>>,
    nrows: nat,
    ncols: nat,
    ctx: ContextView,
    representation: Option<Representation>,
) -> Result<PolyView, Error> {
    if nrows != ctx.moduli.len() || ncols != ctx.degree {
        Err(Error::ArrayShapeMismatch)
    } else {
        match representation {
            Some(r) => Ok(fresh_view(ctx, r, rows)),
            None => Err(Error::ArrayRepresentationNeeded),
        }
    }
}

impl TryConvertFrom<ResidueArray> for Poly {
    /// A table of the shape of the context is taken as it is, in the
    /// representation given.
    fn try_convert_from(
        a: ResidueArray,
        ctx: &Rc<Context>,
        representation: Option<Representation>,
    ) -> (r: Result<Self, Error>)
        ensures
            converted(
                r,
                **ctx,
                convert_table(
                    array_rows(a),
                    array_rows(a).len(),
                    array_cols(a),
                    ctx@,
                    representation,
                ),
            ),
    {
        let (rows, cols) = array_dim(&a);
        if rows != ctx.len() || cols != ctx.degree() {
            Err(Error::ArrayShapeMismatch)
        } else {
            match representation {
                Some(repr) => Ok(Poly::from_table(ctx, repr, a)),
                None => Err(Error::ArrayRepresentationNeeded),
            }
        }
    }
}

/// The values of a sequence of words.
pub open spec fn word_values(v: Seq<u64>) -> Seq<int> {
    Seq::new(v.len(), |j: int| v[j] as int)
}

/// The values of a sequence of signed words.
pub open spec fn signed_values(v: Seq<i64>) -> Seq<int> {
    Seq::new(v.len(), |j: int| v[j] as int)
}

/// The values of a sequence of big integers.
pub open spec fn big_values(v: Seq<BigUint>) -> Seq<int> {
    Seq::new(v.len(), |j: int| big_value(v[j]) as int)
}

/// What the conversion of a sequence of words gives: as many words as the
/// table has entries are the table, row after row, in any representation; no
/// more words than the degree are the coefficients of a polynomial in
/// `PowerBasis`, which are reduced modulo each modulus.
pub open spec fn convert_words(
    v: Seq<u64>,
    ctx: ContextView,
    representation: Option<Representation>,
) -> Result<PolyView, Error> {
    let m = ctx.moduli.len();
    let n = ctx.degree;
    match representation {
        None => Err(Error::RepresentationNeeded),
        Some(Representation::Ntt) => if v.len() == m * n {
            Ok(fresh_view(ctx, Representation::Ntt, rows_of_flat(v, m, n)))
        } else {
            Err(Error::NttNeedsAllCoefficients)
        },
        Some(Representation::NttShoup) => if v.len() == m * n {
            Ok(fresh_view(ctx, Representation::NttShoup, rows_of_flat(v, m, n)))
        } else {
            Err(Error::NttShoupNeedsAllCoefficients)
        },
        Some(Representation::PowerBasis) => if v.len() == m * n {
            Ok(fresh_view(ctx, Representation::PowerBasis, rows_of_flat(v, m, n)))
        } else if v.len() <= n {
            Ok(fresh_view(ctx, Representation::PowerBasis, residue_rows(word_values(v), ctx)))
        } else {
            Err(Error::PowerBasisWrongLength)
        },
    }
}

/// What the conversion of one word gives: the constant polynomial, in
/// `PowerBasis` only.
pub open spec fn convert_scalar(
    value: u64,
    ctx: ContextView,
    representation: Option<Representation>,
) -> Result<PolyView, Error> {
    if representation == Some(Representation::PowerBasis) {
        convert_words(seq![value], ctx, representation)
    } else {
        Err(Error::ScalarNeedsPowerBasis)
    }
}

/// What the conversion of signed words gives: the polynomial with these
/// coefficients, no more than the degree, in `PowerBasis` only.
pub open spec fn convert_signed(
    v: Seq<i64>,
    ctx: ContextView,
    representation: Option<Representation>,
) -> Result<PolyView, Error> {
    if representation != Some(Representation::PowerBasis) {
        Err(Error::SignedNeedsPowerBasis)
    } else if v.len() <= ctx.degree {
        Ok(fresh_view(ctx, Representation::PowerBasis, residue_rows(signed_values(v), ctx)))
    } else {
        Err(Error::SignedTooLong)
    }
}

/// What the conversion of big integers gives: column `j` of the table holds
/// the residues of integer `j`; there may be no more of them than the degree.
pub open spec fn convert_big(
    v: Seq<int>,
    ctx: ContextView,
    representation: Option<Representation>,
) -> Result<PolyView, Error> {
    if v.len() > ctx.degree {
        Err(Error::TooManyBigIntegers)
    } else {
        match representation {
            Some(r) => Ok(fresh_view(ctx, r, residue_rows(v, ctx))),
            None => Err(Error::RepresentationNeeded),
        }
    }
}

/// What a conversion returns, held against what it is to give.
pub open spec fn converted(
    r: Result<Poly, Error>,
    ctx: Context,
    expected: Result<PolyView, Error>,
) -> bool {
    match r {
        Ok(p) => p.inv() && p.context() == ctx && Ok::<PolyView, Error>(p@) == expected,
        Err(e) => Err::<PolyView, Error>(e) == expected,
    }
}

/// The table of the polynomial in `PowerBasis` whose coefficients are the
/// words `v`, no more than the degree.
fn table_of_words(v: &[u64], ctx: &Context) -> (r: ResidueArray)
    requires
        ctx.wf(),
        v@.len() <= ctx@.degree,
    ensures
        has_shape(r, ctx@.moduli.len(), ctx@.degree),
        array_rows(r) == residue_rows(word_values(v@), ctx@),
{
    proof {
        ctx.lemma_wf();
    }
    let m: usize = ctx.len();
    let n: usize = ctx.degree();
    let len: usize = v.len();
    let ghost expected = residue_rows(word_values(v@), ctx@);
    let mut out: ResidueArray = array_zeros(m, n);
    let mut i: usize = 0;
    while i < m
        invariant
            ctx.wf(),
            0 <= i <= m,
            m == ctx@.moduli.len(),
            n == ctx@.degree,
            len == v@.len(),
            len <= n,
            expected == residue_rows(word_values(v@), ctx@),
            has_shape(out, m as nat, n as nat),
            forall|k: int| 0 <= k < i ==> (#[trigger] array_rows(out)[k]) == expected[k],
            forall|k: int| i <= k < m ==> (#[trigger] array_rows(out)[k]) == zero_rows(
                m as nat,
                n as nat,
            )[k],
        decreases m - i,
    {
        let q: &Modulus = ctx.modulus_at(i);
        let row: &mut [u64] = array_row_mut(&mut out, i);
        let mut j: usize = 0;
        while j < len
            invariant
                0 <= j <= len <= n,
                len == v@.len(),
                row@.len() == n,
                forall|k: int| 0 <= k < j ==> (#[trigger] row@[k]) == v@[k],
                forall|k: int| j <= k < n ==> (#[trigger] row@[k]) == 0,
            decreases len - j,
        {
            row[j] = v[j];
            j += 1;
        }
        let ghost copied = row@;
        q.reduce_vec(row);
        proof {
            lemma_small_mod(0, q.value() as nat);
            assert forall|k: int| 0 <= k < n implies (#[trigger] row@[k]) == expected[i as int][k] by {
                assert(row@[k] == (copied[k] as int) % q.value());
            }
            assert(row@ =~= expected[i as int]);
        }
        i += 1;
    }
    assert(array_rows(out) =~= expected);
    out
}

/// The table of the polynomial in `PowerBasis` whose coefficients are the
/// signed words `v`, no more than the degree.
fn table_of_signed(v: &[i64], ctx: &Context) -> (r: ResidueArray)
    requires
        ctx.wf(),
        v@.len() <= ctx@.degree,
    ensures
        has_shape(r, ctx@.moduli.len(), ctx@.degree),
        array_rows(r) == residue_rows(signed_values(v@), ctx@),
{
    proof {
        ctx.lemma_wf();
    }
    let m: usize = ctx.len();
    let n: usize = ctx.degree();
    let len: usize = v.len();
    let ghost expected = residue_rows(signed_values(v@), ctx@);
    let mut out: ResidueArray = array_zeros(m, n);
    let mut i: usize = 0;
    while i < m
        invariant
            ctx.wf(),
            0 <= i <= m,
            m == ctx@.moduli.len(),
            n == ctx@.degree,
            len == v@.len(),
            len <= n,
            expected == residue_rows(signed_values(v@), ctx@),
            has_shape(out, m as nat, n as nat),
            forall|k: int| 0 <= k < i ==> (#[trigger] array_rows(out)[k]) == expected[k],
            forall|k: int| i <= k < m ==> (#[trigger] array_rows(out)[k]) == zero_rows(
                m as nat,
                n as nat,
            )[k],
        decreases m - i,
    {
        let q: &Modulus = ctx.modulus_at(i);
        let mut residues: Vec<u64> = q.reduce_vec_i64(v);
        let row: &mut [u64] = array_row_mut(&mut out, i);
        let mut j: usize = 0;
        while j < len
            invariant
                0 <= j <= len <= n,
                len == residues@.len(),
                row@.len() == n,
                forall|k: int| 0 <= k < j ==> (#[trigger] row@[k]) == residues@[k],
                forall|k: int| j <= k < n ==> (#[trigger] row@[k]) == 0,
            decreases len - j,
        {
            row[j] = residues[j];
            j += 1;
        }
        assert(row@ =~= expected[i as int]);
        // the residues of secret values are not left behind
        wipe_words(residues.as_mut_slice());
        i += 1;
    }
    assert(array_rows(out) =~= expected);
    out
}

/// The table whose column `j` holds the residues of the big integer `v[j]`,
/// and zeros beyond the integers given.
fn table_of_big(v: &[BigUint], ctx: &Context) -> (r: ResidueArray)
    requires
        ctx.wf(),
        v@.len() <= ctx@.degree,
    ensures
        has_shape(r, ctx@.moduli.len(), ctx@.degree),
        array_rows(r) == residue_rows(big_values(v@), ctx@),
{
    proof {
        ctx.lemma_wf();
    }
    let m: usize = ctx.len();
    let n: usize = ctx.degree();
    let len: usize = v.len();
    let ghost values = big_values(v@);
    let ghost expected = residue_rows(values, ctx@);
    let mut out: ResidueArray = array_zeros(m, n);
    let mut j: usize = 0;
    while j < len
        invariant
            ctx.wf(),
            0 <= j <= len <= n,
            m == ctx@.moduli.len(),
            n == ctx@.degree,
            len == v@.len(),
            values == big_values(v@),
            expected == residue_rows(values, ctx@),
            has_shape(out, m as nat, n as nat),
            forall|i: int, k: int|
                0 <= i < m && 0 <= k < j ==> (#[trigger] array_rows(out)[i][k]) == expected[i][k],
            forall|i: int, k: int|
                0 <= i < m && j <= k < n ==> (#[trigger] array_rows(out)[i][k]) == 0,
        decreases len - j,
    {
        let residues: Vec<u64> = ctx.rns().project(&v[j]);
        let mut i: usize = 0;
        while i < m
            invariant
                ctx.wf(),
                0 <= i <= m,
                0 <= j < len <= n,
                m == ctx@.moduli.len(),
                n == ctx@.degree,
                len == v@.len(),
                values == big_values(v@),
                expected == residue_rows(values, ctx@),
                residues@.len() == m,
                forall|t: int|
                    0 <= t < m ==> (#[trigger] residues@[t]) == big_value(v@[j as int]) % (
                    ctx@.moduli[t] as nat),
                has_shape(out, m as nat, n as nat),
                forall|t: int, k: int|
                    0 <= t < m && 0 <= k < j ==> (#[trigger] array_rows(out)[t][k])
                        == expected[t][k],
                forall|t: int, k: int|
                    0 <= t < m && j < k < n ==> (#[trigger] array_rows(out)[t][k]) == 0,
                forall|t: int|
                    0 <= t < i ==> (#[trigger] array_rows(out)[t])[j as int] == expected[t][j as int],
                forall|t: int| i <= t < m ==> (#[trigger] array_rows(out)[t])[j as int] == 0,
            decreases m - i,
        {
            let ghost before = array_rows(out);
            let row: &mut [u64] = array_row_mut(&mut out, i);
            row[j] = residues[i];
            proof {
                assert(values[j as int] == big_value(v@[j as int]));
            }
            i += 1;
        }
        j += 1;
    }
    proof {
        assert forall|i: int| 0 <= i < m implies (#[trigger] array_rows(out)[i]) =~= expected[i] by {
            assert forall|k: int| 0 <= k < n implies array_rows(out)[i][k] == expected[i][k] by {
                if k >= len {
                    assert(array_rows(out)[i][k] == 0);
                }
            }
        }
        assert(array_rows(out) =~= expected);
    }
    out
}

impl TryConvertFrom<Vec<u64>> for Poly {
    /// As many words as the table has entries are taken for the table, row
    /// after row, as they are; no more words than the degree are taken for the
    /// coefficients of a polynomial in `PowerBasis`. The words given are
    /// overwritten with zeros where they have been copied.
    fn try_convert_from(
        v: Vec<u64>,
        ctx: &Rc<Context>,
        representation: Option<Representation>,
    ) -> (r: Result<Self, Error>)
        ensures
            converted(r, **ctx, convert_words(v@, ctx@, representation)),
            r matches Ok(p) ==> (v@.len() != ctx@.moduli.len() * ctx@.degree ==> p.wf()),
    {
        proof {
            ctx.lemma_wf();
            lemma_residue_rows_reduced(word_values(v@), ctx@);
        }
        let m: usize = ctx.len();
        let n: usize = ctx.degree();
        match representation {
            None => Err(Error::RepresentationNeeded),
            Some(Representation::Ntt) => match array_from_flat(m, n, v) {
                Some(table) => Ok(Poly::from_table(ctx, Representation::Ntt, table)),
                None => Err(Error::NttNeedsAllCoefficients),
            },
            Some(Representation::NttShoup) => match array_from_flat(m, n, v) {
                Some(table) => Ok(Poly::from_table(ctx, Representation::NttShoup, table)),
                None => Err(Error::NttShoupNeedsAllCoefficients),
            },
            Some(Representation::PowerBasis) => {
                if v.len() == m * n {
                    match array_from_flat(m, n, v) {
                        Some(table) => Ok(Poly::from_table(ctx, Representation::PowerBasis, table)),
                        None => Err(Error::PowerBasisWrongLength),
                    }
                } else if v.len() <= n {
                    let mut v = v;
                    let table: ResidueArray = table_of_words(v.as_slice(), &**ctx);
                    wipe_words(v.as_mut_slice());
                    Ok(Poly::from_table(ctx, Representation::PowerBasis, table))
                } else {
                    Err(Error::PowerBasisWrongLength)
                }
            },
        }
    }
}

impl<'a> TryConvertFrom<&'a [u64]> for Poly {
    /// As for a vector of words, of which the slice is copied.
    fn try_convert_from(
        v: &'a [u64],
        ctx: &Rc<Context>,
        representation: Option<Representation>,
    ) -> (r: Result<Self, Error>)
        ensures
            converted(r, **ctx, convert_words(v@, ctx@, representation)),
            r matches Ok(p) ==> (v@.len() != ctx@.moduli.len() * ctx@.degree ==> p.wf()),
    {
        let mut copy: Vec<u64> = Vec::with_capacity(v.len());
        copy.extend_from_slice(v);
        assert(copy@ =~= v@);
        <Poly as TryConvertFrom<Vec<u64>>>::try_convert_from(copy, ctx, representation)
    }
}

impl TryConvertFrom<u64> for Poly {
    /// One word is the constant polynomial, in `PowerBasis` only.
    fn try_convert_from(
        value: u64,
        ctx: &Rc<Context>,
        representation: Option<Representation>,
    ) -> (r: Result<Self, Error>)
        ensures
            converted(r, **ctx, convert_scalar(value, ctx@, representation)),
            r matches Ok(p) ==> p.wf(),
    {
        match representation {
            Some(Representation::PowerBasis) => {
                let mut v: Vec<u64> = Vec::with_capacity(1);
                v.push(value);
                assert(v@ =~= seq![value]);
                proof {
                    ctx.lemma_wf();
                    assert(ctx@.moduli.len() * ctx@.degree != 1) by (nonlinear_arith)
                        requires
                            ctx@.moduli.len() >= 1,
                            ctx@.degree >= 8,
                    ;
                }
                <Poly as TryConvertFrom<Vec<u64>>>::try_convert_from(v, ctx, representation)
            },
            _ => Err(Error::ScalarNeedsPowerBasis),
        }
    }
}

impl<'a> TryConvertFrom<&'a [i64]> for Poly {
    /// Signed words, no more than the degree, are the coefficients of a
    /// polynomial in `PowerBasis`, which are reduced modulo each modulus.
    fn try_convert_from(
        v: &'a [i64],
        ctx: &Rc<Context>,
        representation: Option<Representation>,
    ) -> (r: Result<Self, Error>)
        ensures
            converted(r, **ctx, convert_signed(v@, ctx@, representation)),
            r matches Ok(p) ==> p.wf(),
    {
        proof {
            ctx.lemma_wf();
            lemma_residue_rows_reduced(signed_values(v@), ctx@);
        }
        match representation {
            Some(Representation::PowerBasis) => {
                if v.len() <= ctx.degree() {
                    let table: ResidueArray = table_of_signed(v, &**ctx);
                    Ok(Poly::from_table(ctx, Representation::PowerBasis, table))
                } else {
                    Err(Error::SignedTooLong)
                }
            },
            _ => Err(Error::SignedNeedsPowerBasis),
        }
    }
}

impl<'a> TryConvertFrom<&'a [BigUint]> for Poly {
    /// Big integers, no more than the degree, are projected onto their
    /// residues, one column of the table for each.
    fn try_convert_from(
        v: &'a [BigUint],
        ctx: &Rc<Context>,
        representation: Option<Representation>,
    ) -> (r: Result<Self, Error>)
        ensures
            converted(r, **ctx, convert_big(big_values(v@), ctx@, representation)),
            r matches Ok(p) ==> p.wf(),
    {
        proof {
            ctx.lemma_wf();
            lemma_residue_rows_reduced(big_values(v@), ctx@);
        }
        if v.len() > ctx.degree() {
            Err(Error::TooManyBigIntegers)
        } else {
            match representation {
                Some(repr) => {
                    let table: ResidueArray = table_of_big(v, &**ctx);
                    Ok(Poly::from_table(ctx, repr, table))
                },
                None => Err(Error::RepresentationNeeded),
            }
        }
    }
}

impl<'a> TryConvertFrom<&'a Vec<u64>> for Poly {
    /// As for a vector of words, of which the vector is copied.
    fn try_convert_from(
        v: &'a Vec<u64>,
        ctx: &Rc<Context>,
        representation: Option<Representation>,
    ) -> (r: Result<Self, Error>)
        ensures
            converted(r, **ctx, convert_words(v@, ctx@, representation)),
            r matches Ok(p) ==> (v@.len() != ctx@.moduli.len() * ctx@.degree ==> p.wf()),
    {
        <Poly as TryConvertFrom<&[u64]>>::try_convert_from(v.as_slice(), ctx, representation)
    }
}

impl<'a, const N: usize> TryConvertFrom<&'a [u64; N]> for Poly {
    /// As for a vector of words, of which the array is copied.
    fn try_convert_from(
        v: &'a [u64; N],
        ctx: &Rc<Context>,
        representation: Option<Representation>,
    ) -> (r: Result<Self, Error>)
        ensures
            converted(r, **ctx, convert_words(v@, ctx@, representation)),
            r matches Ok(p) ==> (v@.len() != ctx@.moduli.len() * ctx@.degree ==> p.wf()),
    {
        <Poly as TryConvertFrom<&[u64]>>::try_convert_from(v.as_slice(), ctx, representation)
    }
}

impl<'a, const N: usize> TryConvertFrom<&'a [i64; N]> for Poly {
    /// As for a slice of signed words.
    fn try_convert_from(
        v: &'a [i64; N],
        ctx: &Rc<Context>,
        representation: Option<Representation>,
    ) -> (r: Result<Self, Error>)
        ensures
            converted(r, **ctx, convert_signed(v@, ctx@, representation)),
            r matches Ok(p) ==> p.wf(),
    {
        <Poly as TryConvertFrom<&[i64]>>::try_convert_from(v.as_slice(), ctx, representation)
    }
}

impl<'a, const N: usize> TryConvertFrom<&'a [BigUint; N]> for Poly {
    /// As for a slice of big integers.
    fn try_convert_from(
        v: &'a [BigUint; N],
        ctx: &Rc<Context>,
        representation: Option<Representation>,
    ) -> (r: Result<Self, Error>)
        ensures
            converted(r, **ctx, convert_big(big_values(v@), ctx@, representation)),
            r matches Ok(p) ==> p.wf(),
    {
        <Poly as TryConvertFrom<&[BigUint]>>::try_convert_from(v.as_slice(), ctx, representation)
    }
}

/// Column `j` of a table.
pub open spec fn column(rows: Seq<Seq<u64>>, j: int) -> Seq<u64> {
    Seq::new(rows.len(), |i: int| rows[i][j])
}

/// What a polynomial becomes when it is multiplied by the integer `value`: the
/// integer is made the constant polynomial in the representation of the
/// polynomial, brought to `Ntt`, and its residues are multiplied into those of
/// the polynomial, entry by entry.
pub open spec fn scaled_view(v: PolyView, value: int) -> PolyView {
    let constant = fresh_view(v.ctx, v.representation, residue_rows(seq![value], v.ctx));
    let factor = change_view(constant, Representation::Ntt);
    override_view(
        PolyView {
            coefficients: map_rows(RowOp::Mul, v.coefficients, factor.coefficients, v.ctx.moduli),
            ..v
        },
        v.representation,
    )
}

impl Poly {
    /// The residues of the polynomial, row after row. Which representation
    /// they are in, the polynomial knows and the vector does not.
    pub fn to_u64_vec(&self) -> (r: Vec<u64>)
        requires
            self.inv(),
        ensures
            r@ == flat_of_rows(self@.coefficients, self@.ctx.degree),
    {
        self.coefficients().to_flat()
    }

    /// The coefficients of the polynomial as integers below the product of the
    /// moduli: entry `j` is the one such integer whose residues are column `j`
    /// of the table.
    pub fn to_biguint_vec(&self) -> (r: Vec<BigUint>)
        requires
            self.wf(),
        ensures
            r@.len() == self@.ctx.degree,
            forall|j: int|
                0 <= j < r@.len() ==> big_value(#[trigger] r@[j]) < product_of(
                    self@.ctx.moduli,
                    self@.ctx.moduli.len(),
                ) && residues_of(
                    big_value(r@[j]),
                    self@.ctx.moduli,
                    column(self@.coefficients, j),
                ),
    {
        proof {
            self.lemma_inv();
        }
        let ctx: &Rc<Context> = self.ctx();
        let table: &ResidueArray = self.coefficients();
        let m: usize = ctx.len();
        let n: usize = ctx.degree();
        let ghost rows = self@.coefficients;
        let ghost moduli = self@.ctx.moduli;
        let mut out: Vec<BigUint> = Vec::with_capacity(n);
        let mut j: usize = 0;
        while j < n
            invariant
                ctx.wf(),
                ctx@ == self@.ctx,
                0 <= j <= n,
                m == moduli.len(),
                n == self@.ctx.degree,
                moduli == self@.ctx.moduli,
                rows == self@.coefficients,
                rows == array_rows(*table),
                has_shape(*table, m as nat, n as nat),
                rows_reduced(rows, moduli),
                out@.len() == j,
                forall|k: int|
                    0 <= k < j ==> big_value(#[trigger] out@[k]) < product_of(moduli, moduli.len())
                        && residues_of(big_value(out@[k]), moduli, column(rows, k)),
            decreases n - j,
        {
            let mut rests: Vec<u64> = Vec::with_capacity(m);
            let mut i: usize = 0;
            while i < m
                invariant
                    0 <= i <= m,
                    0 <= j < n,
                    m == moduli.len(),
                    rows == array_rows(*table),
                    has_shape(*table, m as nat, n as nat),
                    rows_reduced(rows, moduli),
                    rests@.len() == i,
                    forall|t: int| 0 <= t < i ==> (#[trigger] rests@[t]) == rows[t][j as int],
                    forall|t: int| 0 <= t < i ==> (#[trigger] rests@[t]) < moduli[t],
                decreases m - i,
            {
                let row: &[u64] = array_row(table, i);
                assert(reduced(rows[i as int], moduli[i as int] as int));
                rests.push(row[j]);
                i += 1;
            }
            assert(rests@ =~= column(rows, j as int));
            let lifted: BigUint = ctx.rns().lift(rests.as_slice());
            out.push(lifted);
            j += 1;
        }
        out
    }

    /// Multiplies this polynomial by the integer `p`, in place. The
    /// representation stays; the variable time path is taken when this
    /// polynomial allows it.
    pub fn mul_assign_scalar(&mut self, p: &BigUint)
        requires
            old(self).wf(),
        ensures
            final(self).wf(),
            final(self)@ == scaled_view(old(self)@, big_value(*p) as int),
    {
        proof {
            self.lemma_inv();
            self.context().lemma_wf();
        }
        let ctx: Rc<Context> = Rc::clone(self.ctx());
        let m: usize = ctx.len();
        let n: usize = ctx.degree();
        let ghost value = big_value(*p) as int;
        let ghost expected = residue_rows(seq![value], ctx@);
        let residues: Vec<u64> = ctx.rns().project(p);
        let mut table: ResidueArray = array_zeros(m, n);
        let mut i: usize = 0;
        while i < m
            invariant
                ctx.wf(),
                0 <= i <= m,
                m == ctx@.moduli.len(),
                n == ctx@.degree,
                n >= 8,
                expected == residue_rows(seq![value], ctx@),
                value == big_value(*p),
                residues_of(big_value(*p), ctx@.moduli, residues@),
                has_shape(table, m as nat, n as nat),
                forall|k: int| 0 <= k < i ==> (#[trigger] array_rows(table)[k]) == expected[k],
                forall|k: int|
                    i <= k < m ==> (#[trigger] array_rows(table)[k]) == zero_rows(
                        m as nat,
                        n as nat,
                    )[k],
            decreases m - i,
        {
            let row: &mut [u64] = array_row_mut(&mut table, i);
            row[0] = residues[i];
            assert(row@ =~= expected[i as int]);
            i += 1;
        }
        assert(array_rows(table) =~= expected);
        let mut q: Poly = Poly::from_table(&ctx, self.representation(), table);
        proof {
            lemma_residue_rows_reduced(seq![value], ctx@);
        }
        q.change_representation(Representation::Ntt);
        self.scale_by(&q);
    }

    /// The product of this polynomial and the integer `p`.
    pub fn mul_scalar(&self, p: &BigUint) -> (r: Poly)
        requires
            self.wf(),
        ensures
            r.wf(),
            r@ == scaled_view(self@, big_value(*p) as int),
    {
        let mut q: Poly = self.clone();
        q.mul_assign_scalar(p);
        q
    }
}

} // verus!
