//! Polynomials of a context: a table of residues with one row for each modulus,
//! in one of three representations, with the arithmetic on them.
use crate::arith::{
    add_mod, mul_mod, neg_mod, reduced, shoup_of, shoup_pairs, sub_mod, word,
};
use crate::array::{
    array_clone, array_cols, array_dim, array_row, array_row_mut, array_rows, array_zeros,
    has_shape, zero_rows, ResidueArray,
};
use crate::context::{Context, ContextView};
use crate::ntt::{ntt_backward, ntt_forward};
use crate::wipe::wipe_words;
use crate::zq::Modulus;
use std::rc::Rc;
use vstd::arithmetic::div_mod::*;
use vstd::arithmetic::mul::*;
use vstd::prelude::*;

verus! {

/// Possible representations of the underlying polynomial.
#[derive(Debug, Clone, Copy, PartialEq, Eq, Structural, Default)]
pub enum Representation {
    /// This is the list of coefficients ci, such that the polynomial is
    /// c0 + c1 * x + ... + c_(degree - 1) * x^(degree - 1)
    #[default]
    PowerBasis,
    /// This is the NTT representation of the PowerBasis representation.
    Ntt,
    /// This is a "Shoup" representation of the Ntt representation used for
    /// faster multiplication.
    NttShoup,
}

/// What a polynomial is: its context, its representation, whether it may be
/// computed on in variable time, its residues, and their Shoup encoding where
/// the representation has one.
pub struct PolyView {
    pub ctx: ContextView,
    pub representation: Representation,
    pub variable_time: bool,
    pub coefficients: Seq<Seq<u64>>,
    pub shoup: Option<Seq<Seq<u64>>>,
}

/// An operation on the rows of a table of residues.
#[derive(Debug, Clone, Copy)]
pub enum RowOp {
    /// The sum of two rows, entry by entry.
    Add,
    /// The difference of two rows, entry by entry.
    Sub,
    /// The product of two rows, entry by entry.
    Mul,
    /// The opposite of a row, entry by entry.
    Neg,
    /// The transform of a row of coefficients.
    Forward,
    /// The coefficients that a row is the transform of.
    Backward,
}

/// The row that `op` makes of the row `a`, and of the row `b` where it takes
/// two, modulo `p`.
pub open spec fn row_op(op: RowOp, a: Seq<u64>, b: Seq<u64>, p: int) -> Seq<u64> {
    match op {
        RowOp::Add => Seq::new(a.len(), |j: int| add_mod(a[j] as int, b[j] as int, p) as u64),
        RowOp::Sub => Seq::new(a.len(), |j: int| sub_mod(a[j] as int, b[j] as int, p) as u64),
        RowOp::Mul => Seq::new(a.len(), |j: int| mul_mod(a[j] as int, b[j] as int, p) as u64),
        RowOp::Neg => Seq::new(a.len(), |j: int| neg_mod(a[j] as int, p) as u64),
        RowOp::Forward => ntt_forward(a, p),
        RowOp::Backward => ntt_backward(a, p),
    }
}

/// The table that `op` makes of the table `a`, and of `b` where it takes two,
/// row `i` modulo `moduli[i]`.
pub open spec fn map_rows(op: RowOp, a: Seq<Seq<u64>>, b: Seq<Seq<u64>>, moduli: Seq<u64>) -> Seq<
    Seq<u64>,
> {
    Seq::new(a.len(), |i: int| row_op(op, a[i], b[i], moduli[i] as int))
}

/// The Shoup encoding of a table of residues.
pub open spec fn shoup_table(a: Seq<Seq<u64>>, moduli: Seq<u64>) -> Seq<Seq<u64>> {
    Seq::new(
        a.len(),
        |i: int| Seq::new(a[i].len(), |j: int| shoup_of(a[i][j] as int, moduli[i] as int) as u64),
    )
}

/// The table has one row of `degree` entries for each modulus.
pub open spec fn table_shape(a: Seq<Seq<u64>>, ctx: ContextView) -> bool {
    &&& a.len() == ctx.moduli.len()
    &&& forall|i: int| 0 <= i < a.len() ==> (#[trigger] a[i]).len() == ctx.degree
}

/// Every entry of row `i` is a residue modulo `moduli[i]`.
pub open spec fn rows_reduced(a: Seq<Seq<u64>>, moduli: Seq<u64>) -> bool {
    forall|i: int| 0 <= i < a.len() ==> reduced(#[trigger] a[i], moduli[i] as int)
}

/// The shape of a polynomial is sound: the table fits the context, and the
/// Shoup encoding is there exactly in the representation `NttShoup`, where it
/// is the encoding of the table.
pub open spec fn view_ok(v: PolyView) -> bool {
    &&& table_shape(v.coefficients, v.ctx)
    &&& v.shoup is Some <==> v.representation == Representation::NttShoup
    &&& v.shoup is Some ==> v.shoup->Some_0 == shoup_table(v.coefficients, v.ctx.moduli)
}

/// What a change of representation makes of a polynomial: from `PowerBasis`
/// the rows are transformed, to `PowerBasis` they are transformed back, and
/// between `Ntt` and `NttShoup` they stay; the Shoup encoding is that of the
/// new rows in `NttShoup` and absent elsewhere.
pub open spec fn change_view(v: PolyView, to: Representation) -> PolyView {
    let coefficients = if v.representation == to {
        v.coefficients
    } else if v.representation == Representation::PowerBasis {
        map_rows(RowOp::Forward, v.coefficients, v.coefficients, v.ctx.moduli)
    } else if to == Representation::PowerBasis {
        map_rows(RowOp::Backward, v.coefficients, v.coefficients, v.ctx.moduli)
    } else {
        v.coefficients
    };
    PolyView {
        representation: to,
        coefficients,
        shoup: if to == Representation::NttShoup {
            Some(shoup_table(coefficients, v.ctx.moduli))
        } else {
            None
        },
        ..v
    }
}

/// What an override of the representation makes of a polynomial: the rows
/// stay, the Shoup encoding is that of the rows in `NttShoup` and absent
/// elsewhere.
pub open spec fn override_view(v: PolyView, to: Representation) -> PolyView {
    PolyView {
        representation: to,
        shoup: if to == Representation::NttShoup {
            Some(shoup_table(v.coefficients, v.ctx.moduli))
        } else {
            None
        },
        ..v
    }
}

/// Copies `src` over `dst`.
pub fn copy_words(dst: &mut [u64], src: &[u64])
    requires
        old(dst)@.len() == src@.len(),
    ensures
        final(dst)@ == src@,
{
    let n: usize = src.len();
    let mut i: usize = 0;
    while i < n
        invariant
            0 <= i <= n,
            n == src@.len(),
            dst@.len() == n,
            forall|k: int| 0 <= k < i ==> (#[trigger] dst@[k]) == src@[k],
        decreases n - i,
    {
        dst[i] = src[i];
        i += 1;
    }
    assert(dst@ =~= src@);
}

/// Overwrites every entry of the table with zero, in a way that no compiler
/// may leave out.
pub fn wipe_table(a: &mut ResidueArray)
    requires
        has_shape(*old(a), array_rows(*old(a)).len(), array_cols(*old(a))),
    ensures
        has_shape(*final(a), array_rows(*old(a)).len(), array_cols(*old(a))),
        array_rows(*final(a)) == zero_rows(array_rows(*old(a)).len(), array_cols(*old(a))),
{
    let (m, _) = array_dim(a);
    let ghost rows = array_rows(*a).len();
    let ghost cols = array_cols(*a);
    let mut i: usize = 0;
    while i < m
        invariant
            0 <= i <= m,
            m == rows,
            has_shape(*a, rows, cols),
            forall|k: int| 0 <= k < i ==> (#[trigger] array_rows(*a)[k]) == Seq::new(cols, |j: int| 0u64),
        decreases m - i,
    {
        let row: &mut [u64] = array_row_mut(a, i);
        wipe_words(row);
        assert(row@ =~= Seq::new(cols, |j: int| 0u64));
        i += 1;
    }
    assert(array_rows(*a) =~= zero_rows(rows, cols));
}

/// The product of two tables does not depend on their order.
pub proof fn lemma_mul_rows_commute(a: Seq<Seq<u64>>, b: Seq<Seq<u64>>, ctx: ContextView)
    requires
        table_shape(a, ctx),
        table_shape(b, ctx),
    ensures
        map_rows(RowOp::Mul, a, b, ctx.moduli) == map_rows(RowOp::Mul, b, a, ctx.moduli),
{
    let x = map_rows(RowOp::Mul, a, b, ctx.moduli);
    let y = map_rows(RowOp::Mul, b, a, ctx.moduli);
    assert forall|i: int| 0 <= i < x.len() implies #[trigger] x[i] =~= y[i] by {
        assert(a[i].len() == b[i].len());
        assert forall|j: int| 0 <= j < a[i].len() implies #[trigger] x[i][j] == y[i][j] by {
            lemma_mul_is_commutative(a[i][j] as int, b[i][j] as int);
        }
    }
    assert(x =~= y);
}

/// The Shoup encoding of zero is zero.
pub proof fn lemma_shoup_zero(p: int)
    requires
        p > 0,
    ensures
        shoup_of(0, p) == 0,
{
    assert(0 * word() == 0);
    lemma_small_mod(0, word() as nat);
}

/// Struct that holds a polynomial for a specific context.
#[derive(Debug, PartialEq)]
pub struct Poly {
    ctx: Rc<Context>,
    representation: Representation,
    allow_variable_time_computations: bool,
    coefficients: ResidueArray,
    coefficients_shoup: Option<ResidueArray>,
}

impl View for Poly {
    type V = PolyView;

    closed spec fn view(&self) -> PolyView {
        PolyView {
            ctx: self.ctx@,
            representation: self.representation,
            variable_time: self.allow_variable_time_computations,
            coefficients: array_rows(self.coefficients),
            shoup: match self.coefficients_shoup {
                Some(s) => Some(array_rows(s)),
                None => None,
            },
        }
    }
}

/// Applies `op` to every row of `target`, with the matching row of `other` as
/// second operand where `op` takes two. A product may be given the Shoup
/// encoding of `other`, which changes how it is computed and not what it is.
pub fn apply_rows(
    ctx: &Context,
    op: RowOp,
    variable_time: bool,
    target: &mut ResidueArray,
    other: Option<&ResidueArray>,
    other_shoup: Option<&ResidueArray>,
)
    requires
        ctx.wf(),
        has_shape(*old(target), ctx@.moduli.len(), ctx@.degree),
        rows_reduced(array_rows(*old(target)), ctx@.moduli),
        (op is Add || op is Sub || op is Mul) ==> other is Some,
        other is Some ==> has_shape(*other->Some_0, ctx@.moduli.len(), ctx@.degree)
            && rows_reduced(array_rows(*other->Some_0), ctx@.moduli),
        other_shoup is Some ==> other is Some && array_rows(*other_shoup->Some_0) == shoup_table(
            array_rows(*other->Some_0),
            ctx@.moduli,
        ),
    ensures
        has_shape(*final(target), ctx@.moduli.len(), ctx@.degree),
        rows_reduced(array_rows(*final(target)), ctx@.moduli),
        array_rows(*final(target)) == map_rows(
            op,
            array_rows(*old(target)),
            match other {
                Some(o) => array_rows(*o),
                None => array_rows(*old(target)),
            },
            ctx@.moduli,
        ),
{
    let m: usize = ctx.len();
    let ghost before = array_rows(*target);
    let ghost second = match other {
        Some(o) => array_rows(*o),
        None => before,
    };
    let ghost moduli = ctx@.moduli;
    let ghost n = ctx@.degree;
    let mut i: usize = 0;
    while i < m
        invariant
            ctx.wf(),
            0 <= i <= m,
            m == moduli.len(),
            moduli == ctx@.moduli,
            n == ctx@.degree,
            before == array_rows(*old(target)),
            has_shape(*old(target), m as nat, n),
            rows_reduced(before, moduli),
            second == (match other {
                Some(o) => array_rows(*o),
                None => before,
            }),
            (op is Add || op is Sub || op is Mul) ==> other is Some,
            other is Some ==> has_shape(*other->Some_0, m as nat, n) && rows_reduced(
                array_rows(*other->Some_0),
                moduli,
            ),
            other_shoup is Some ==> other is Some && array_rows(*other_shoup->Some_0)
                == shoup_table(array_rows(*other->Some_0), moduli),
            has_shape(*target, m as nat, n),
            forall|k: int|
                0 <= k < i ==> (#[trigger] array_rows(*target)[k]) == row_op(
                    op,
                    before[k],
                    second[k],
                    moduli[k] as int,
                ),
            forall|k: int| 0 <= k < i ==> reduced(#[trigger] array_rows(*target)[k], moduli[k] as int),
            forall|k: int| i <= k < m ==> (#[trigger] array_rows(*target)[k]) == before[k],
        decreases m - i,
    {
        let q: &Modulus = ctx.modulus_at(i);
        let ghost p = q.value();
        let ghost rows_before = array_rows(*target);
        assert(reduced(before[i as int], moduli[i as int] as int));
        let row: &mut [u64] = array_row_mut(target, i);
        let ghost a = row@;
        match op {
            RowOp::Add => {
                let b: &[u64] = array_row(other.unwrap(), i);
                assert(reduced(second[i as int], moduli[i as int] as int));
                if variable_time {
                    q.add_vec_vt(row, b);
                } else {
                    q.add_vec(row, b);
                }
                assert(row@ =~= row_op(op, a, b@, p));
            },
            RowOp::Sub => {
                let b: &[u64] = array_row(other.unwrap(), i);
                assert(reduced(second[i as int], moduli[i as int] as int));
                if variable_time {
                    q.sub_vec_vt(row, b);
                } else {
                    q.sub_vec(row, b);
                }
                assert(row@ =~= row_op(op, a, b@, p));
            },
            RowOp::Mul => {
                let b: &[u64] = array_row(other.unwrap(), i);
                assert(reduced(second[i as int], moduli[i as int] as int));
                match other_shoup {
                    Some(encoded) => {
                        let b_shoup: &[u64] = array_row(encoded, i);
                        assert(shoup_pairs(b@, b_shoup@, p));
                        if variable_time {
                            q.mul_shoup_vec_vt(row, b, b_shoup);
                        } else {
                            q.mul_shoup_vec(row, b, b_shoup);
                        }
                    },
                    None => {
                        if variable_time {
                            q.mul_vec_vt(row, b);
                        } else {
                            q.mul_vec(row, b);
                        }
                    },
                }
                assert(row@ =~= row_op(op, a, b@, p));
            },
            RowOp::Neg => {
                if variable_time {
                    q.neg_vec_vt(row);
                } else {
                    q.neg_vec(row);
                }
                assert(row@ =~= row_op(op, a, second[i as int], p));
            },
            RowOp::Forward => {
                ctx.operator_at(i).forward(row);
            },
            RowOp::Backward => {
                ctx.operator_at(i).backward(row);
            },
        }
        i += 1;
    }
    assert(array_rows(*target) =~= map_rows(op, before, second, moduli));
}

impl Poly {
    /// The context of the polynomial.
    pub closed spec fn context(&self) -> Context {
        *self.ctx
    }

    /// The invariant of the type, but for the range of the residues: the
    /// context is well-formed and the tables fit it.
    pub closed spec fn inv(&self) -> bool {
        &&& self.table_inv()
        &&& view_ok(self@)
    }

    /// The context is well-formed and the tables have its shape.
    pub closed spec fn table_inv(&self) -> bool {
        let m = self.ctx@.moduli.len();
        let n = self.ctx@.degree;
        &&& self.ctx.wf()
        &&& has_shape(self.coefficients, m, n)
        &&& match self.coefficients_shoup {
            Some(s) => has_shape(s, m, n),
            None => true,
        }
    }

    /// The invariant of the type: the tables fit the well-formed context, and
    /// every entry is a residue modulo the modulus of its row.
    pub open spec fn wf(&self) -> bool {
        &&& self.inv()
        &&& rows_reduced(self@.coefficients, self@.ctx.moduli)
    }

    /// What the invariant says of the view.
    pub proof fn lemma_inv(&self)
        requires
            self.inv(),
        ensures
            view_ok(self@),
            self.context().wf(),
            self.context()@ == self@.ctx,
    {
    }

    /// The polynomial of the context `ctx` with the residues `coefficients`, taken
    /// as they are for residues in the given representation.
    pub fn from_table(
        ctx: &Rc<Context>,
        representation: Representation,
        coefficients: ResidueArray,
    ) -> (r: Poly)
        requires
            ctx.wf(),
            has_shape(coefficients, ctx@.moduli.len(), ctx@.degree),
        ensures
            r.inv(),
            r.context() == **ctx,
            r@ == override_view(
                PolyView {
                    ctx: ctx@,
                    representation,
                    variable_time: false,
                    coefficients: array_rows(coefficients),
                    shoup: None,
                },
                representation,
            ),
    {
        let mut p = Poly {
            ctx: Rc::clone(ctx),
            representation,
            allow_variable_time_computations: false,
            coefficients,
            coefficients_shoup: None,
        };
        match representation {
            Representation::NttShoup => {
                p.compute_coefficients_shoup();
            },
            _ => {},
        }
        p
    }

    /// Creates a polynomial holding the constant 0.
    pub fn zero(ctx: &Rc<Context>, representation: Representation) -> (r: Poly)
        requires
            ctx.wf(),
        ensures
            r.wf(),
            r.context() == **ctx,
            r@ == (PolyView {
                ctx: ctx@,
                representation,
                variable_time: false,
                coefficients: zero_rows(ctx@.moduli.len(), ctx@.degree),
                shoup: if representation == Representation::NttShoup {
                    Some(zero_rows(ctx@.moduli.len(), ctx@.degree))
                } else {
                    None
                },
            }),
    {
        proof {
            ctx.lemma_wf();
        }
        let m: usize = ctx.len();
        let n: usize = ctx.degree();
        let coefficients: ResidueArray = array_zeros(m, n);
        let coefficients_shoup: Option<ResidueArray> = match representation {
            Representation::NttShoup => Some(array_zeros(m, n)),
            _ => None,
        };
        proof {
            let zeros = zero_rows(m as nat, n as nat);
            assert forall|i: int| 0 <= i < m implies (#[trigger] zeros[i]) =~= shoup_table(
                zeros,
                ctx@.moduli,
            )[i] by {
                lemma_shoup_zero(ctx@.moduli[i] as int);
            }
            assert(zeros =~= shoup_table(zeros, ctx@.moduli));
        }
        Poly {
            ctx: Rc::clone(ctx),
            representation,
            allow_variable_time_computations: false,
            coefficients,
            coefficients_shoup,
        }
    }

    /// Enable variable time computations when this polynomial is involved.
    /// This is sound only where the polynomial holds no secret: the time that
    /// the arithmetic takes then depends on the residues.
    pub fn allow_variable_time_computations(&mut self)
        ensures
            final(self)@ == (PolyView { variable_time: true, ..old(self)@ }),
            old(self).inv() ==> final(self).inv(),
    {
        self.allow_variable_time_computations = true
    }

    /// Disable variable time computations when this polynomial is involved.
    pub fn disallow_variable_time_computations(&mut self)
        ensures
            final(self)@ == (PolyView { variable_time: false, ..old(self)@ }),
            old(self).inv() ==> final(self).inv(),
    {
        self.allow_variable_time_computations = false
    }

    /// Compute the Shoup representation of the coefficients.
    fn compute_coefficients_shoup(&mut self)
        requires
            old(self).ctx.wf(),
            has_shape(old(self).coefficients, old(self).ctx@.moduli.len(), old(self).ctx@.degree),
        ensures
            final(self).ctx == old(self).ctx,
            final(self).representation == old(self).representation,
            final(self).allow_variable_time_computations == old(
                self,
            ).allow_variable_time_computations,
            final(self).coefficients == old(self).coefficients,
            final(self).coefficients_shoup is Some,
            has_shape(
                final(self).coefficients_shoup->Some_0,
                old(self).ctx@.moduli.len(),
                old(self).ctx@.degree,
            ),
            array_rows(final(self).coefficients_shoup->Some_0) == shoup_table(
                array_rows(old(self).coefficients),
                old(self).ctx@.moduli,
            ),
    {
        proof {
            self.ctx.lemma_wf();
        }
        let m: usize = self.ctx.len();
        let n: usize = self.ctx.degree();
        let ghost moduli = self.ctx@.moduli;
        let ghost rows = array_rows(self.coefficients);
        let mut encoded: ResidueArray = array_zeros(m, n);
        let mut i: usize = 0;
        while i < m
            invariant
                self.ctx.wf(),
                0 <= i <= m,
                m == moduli.len(),
                moduli == self.ctx@.moduli,
                n == self.ctx@.degree,
                rows == array_rows(self.coefficients),
                has_shape(self.coefficients, m as nat, n as nat),
                has_shape(encoded, m as nat, n as nat),
                forall|k: int|
                    0 <= k < i ==> (#[trigger] array_rows(encoded)[k]) == shoup_table(
                        rows,
                        moduli,
                    )[k],
            decreases m - i,
        {
            let q: &Modulus = self.ctx.modulus_at(i);
            let fresh: Vec<u64> = q.shoup_vec(array_row(&self.coefficients, i));
            let row: &mut [u64] = array_row_mut(&mut encoded, i);
            copy_words(row, fresh.as_slice());
            assert(row@ =~= shoup_table(rows, moduli)[i as int]);
            i += 1;
        }
        assert(array_rows(encoded) =~= shoup_table(rows, moduli));
        self.coefficients_shoup = Some(encoded);
    }

    /// Takes the Shoup encoding out of the polynomial, if it has one, and hands
    /// it over with every entry overwritten by zero: nothing derived from the
    /// residues is left in a buffer that leaves the polynomial.
    pub fn release_shoup(&mut self) -> (released: Option<ResidueArray>)
        requires
            old(self).table_inv(),
        ensures
            final(self).table_inv(),
            final(self)@ == (PolyView { shoup: None, ..old(self)@ }),
            final(self).context() == old(self).context(),
            released is Some <==> old(self)@.shoup is Some,
            released is Some ==> array_rows(released->Some_0) == zero_rows(
                old(self)@.ctx.moduli.len(),
                old(self)@.ctx.degree,
            ),
    {
        match self.coefficients_shoup.take() {
            Some(mut stale) => {
                wipe_table(&mut stale);
                Some(stale)
            },
            None => None,
        }
    }

    /// Change the representation of the underlying polynomial. Every change is
    /// legal; a Shoup encoding that the new representation has no use for is
    /// overwritten with zeros before it is dropped.
    pub fn change_representation(&mut self, to: Representation)
        requires
            old(self).wf(),
        ensures
            final(self).wf(),
            final(self)@ == change_view(old(self)@, to),
    {
        let ghost before = self@;
        let from: Representation = self.representation;
        let ctx: Rc<Context> = Rc::clone(&self.ctx);
        match (from, to) {
            (Representation::PowerBasis, Representation::PowerBasis) => {},
            (Representation::Ntt, Representation::Ntt) => {},
            (Representation::NttShoup, Representation::NttShoup) => {},
            (Representation::PowerBasis, Representation::Ntt) => {
                apply_rows(&*ctx, RowOp::Forward, false, &mut self.coefficients, None, None);
            },
            (Representation::Ntt, Representation::PowerBasis) => {
                apply_rows(&*ctx, RowOp::Backward, false, &mut self.coefficients, None, None);
            },
            (Representation::PowerBasis, Representation::NttShoup) => {
                apply_rows(&*ctx, RowOp::Forward, false, &mut self.coefficients, None, None);
                self.compute_coefficients_shoup();
            },
            (Representation::Ntt, Representation::NttShoup) => {
                self.compute_coefficients_shoup();
            },
            (Representation::NttShoup, Representation::Ntt) => {
                // whether the polynomial was sensitive is not known: wipe the encoding
                let _ = self.release_shoup();
            },
            (Representation::NttShoup, Representation::PowerBasis) => {
                apply_rows(&*ctx, RowOp::Backward, false, &mut self.coefficients, None, None);
                let _ = self.release_shoup();
            },
        }
        self.representation = to;
    }

    /// Override the internal representation to a given representation, without
    /// touching the residues: for a caller who knows that they already are in
    /// that representation. The Shoup encoding is computed for `NttShoup`, and
    /// wiped and dropped for the others, so that the polynomial stays sound.
    pub fn override_representation(&mut self, to: Representation)
        requires
            old(self).inv(),
        ensures
            final(self).inv(),
            final(self)@ == override_view(old(self)@, to),
    {
        let _ = self.release_shoup();
        match to {
            Representation::NttShoup => {
                self.compute_coefficients_shoup();
            },
            _ => {},
        }
        self.representation = to;
    }

    /// Access the polynomial coefficients in RNS representation.
    pub fn coefficients(&self) -> (r: &ResidueArray)
        ensures
            array_rows(*r) == self@.coefficients,
            self.inv() ==> has_shape(*r, self@.ctx.moduli.len(), self@.ctx.degree),
    {
        &self.coefficients
    }

    /// The representation of the polynomial.
    pub fn representation(&self) -> (r: Representation)
        ensures
            r == self@.representation,
    {
        self.representation
    }

    /// Overwrites the residues, and their Shoup encoding where there is one,
    /// with zeros.
    pub fn zeroize(&mut self)
        requires
            old(self).inv(),
        ensures
            final(self).wf(),
            final(self)@ == (PolyView {
                coefficients: zero_rows(old(self)@.ctx.moduli.len(), old(self)@.ctx.degree),
                shoup: if old(self)@.shoup is Some {
                    Some(zero_rows(old(self)@.ctx.moduli.len(), old(self)@.ctx.degree))
                } else {
                    None
                },
                ..old(self)@
            }),
    {
        wipe_table(&mut self.coefficients);
        match &mut self.coefficients_shoup {
            Some(s) => {
                wipe_table(s);
            },
            None => {},
        }
        proof {
            let m = self.ctx@.moduli.len();
            let n = self.ctx@.degree;
            let zeros = zero_rows(m, n);
            self.ctx.lemma_wf();
            assert forall|i: int| 0 <= i < m implies (#[trigger] zeros[i]) =~= shoup_table(
                zeros,
                self.ctx@.moduli,
            )[i] by {
                lemma_shoup_zero(self.ctx@.moduli[i] as int);
            }
            assert(zeros =~= shoup_table(zeros, self.ctx@.moduli));
        }
    }

    /// Adds `p` to this polynomial in place. Both must be of the same context
    /// and in the same representation, which is not `NttShoup`. The variable
    /// time path is taken when either polynomial allows it.
    pub fn add_assign(&mut self, p: &Poly)
        requires
            old(self).wf(),
            p.wf(),
            old(self)@.ctx == p@.ctx,
            old(self)@.representation != Representation::NttShoup,
            old(self)@.representation == p@.representation,
        ensures
            final(self).wf(),
            final(self)@ == (PolyView {
                coefficients: map_rows(
                    RowOp::Add,
                    old(self)@.coefficients,
                    p@.coefficients,
                    p@.ctx.moduli,
                ),
                ..old(self)@
            }),
    {
        let ctx: Rc<Context> = Rc::clone(&self.ctx);
        let variable_time: bool = self.allow_variable_time_computations
            || p.allow_variable_time_computations;
        apply_rows(
            &*ctx,
            RowOp::Add,
            variable_time,
            &mut self.coefficients,
            Some(&p.coefficients),
            None,
        );
    }

    /// Subtracts `p` from this polynomial in place. Both must be of the same
    /// context and in the same representation, which is not `NttShoup`. The
    /// variable time path is taken when either polynomial allows it.
    pub fn sub_assign(&mut self, p: &Poly)
        requires
            old(self).wf(),
            p.wf(),
            old(self)@.ctx == p@.ctx,
            old(self)@.representation != Representation::NttShoup,
            old(self)@.representation == p@.representation,
        ensures
            final(self).wf(),
            final(self)@ == (PolyView {
                coefficients: map_rows(
                    RowOp::Sub,
                    old(self)@.coefficients,
                    p@.coefficients,
                    p@.ctx.moduli,
                ),
                ..old(self)@
            }),
    {
        let ctx: Rc<Context> = Rc::clone(&self.ctx);
        let variable_time: bool = self.allow_variable_time_computations
            || p.allow_variable_time_computations;
        apply_rows(
            &*ctx,
            RowOp::Sub,
            variable_time,
            &mut self.coefficients,
            Some(&p.coefficients),
            None,
        );
    }

    /// Multiplies this polynomial by `p` in place, entry by entry. This
    /// polynomial must be in `Ntt` representation, and `p` in `Ntt` or
    /// `NttShoup`; with `NttShoup` the Shoup encoding of `p` takes the place of
    /// the division, and the product is the same. The variable time path is
    /// taken when either polynomial allows it.
    pub fn mul_assign(&mut self, p: &Poly)
        requires
            old(self).wf(),
            p.wf(),
            old(self)@.ctx == p@.ctx,
            old(self)@.representation == Representation::Ntt,
            p@.representation != Representation::PowerBasis,
        ensures
            final(self).wf(),
            final(self)@ == (PolyView {
                coefficients: map_rows(
                    RowOp::Mul,
                    old(self)@.coefficients,
                    p@.coefficients,
                    p@.ctx.moduli,
                ),
                ..old(self)@
            }),
    {
        let ctx: Rc<Context> = Rc::clone(&self.ctx);
        let variable_time: bool = self.allow_variable_time_computations
            || p.allow_variable_time_computations;
        apply_rows(
            &*ctx,
            RowOp::Mul,
            variable_time,
            &mut self.coefficients,
            Some(&p.coefficients),
            p.coefficients_shoup.as_ref(),
        );
    }

    /// Replaces this polynomial by its opposite, in the same representation; in
    /// `NttShoup` with the Shoup encoding of the new residues. The variable time
    /// path is taken when this polynomial allows it.
    pub fn neg_assign(&mut self)
        requires
            old(self).wf(),
        ensures
            final(self).wf(),
            final(self).context() == old(self).context(),
            final(self)@ == override_view(
                PolyView {
                    coefficients: map_rows(
                        RowOp::Neg,
                        old(self)@.coefficients,
                        old(self)@.coefficients,
                        old(self)@.ctx.moduli,
                    ),
                    ..old(self)@
                },
                old(self)@.representation,
            ),
    {
        let ctx: Rc<Context> = Rc::clone(&self.ctx);
        apply_rows(
            &*ctx,
            RowOp::Neg,
            self.allow_variable_time_computations,
            &mut self.coefficients,
            None,
            None,
        );
        match self.representation {
            Representation::NttShoup => {
                let _ = self.release_shoup();
                self.compute_coefficients_shoup();
            },
            _ => {},
        }
    }

    /// Multiplies the residues by those of `q`, entry by entry, whatever the
    /// representation of this polynomial, which stays; in `NttShoup` the Shoup
    /// encoding is computed anew. The variable time path is taken when this
    /// polynomial allows it.
    pub fn scale_by(&mut self, q: &Poly)
        requires
            old(self).wf(),
            q.wf(),
            old(self)@.ctx == q@.ctx,
        ensures
            final(self).wf(),
            final(self).context() == old(self).context(),
            final(self)@ == override_view(
                PolyView {
                    coefficients: map_rows(
                        RowOp::Mul,
                        old(self)@.coefficients,
                        q@.coefficients,
                        q@.ctx.moduli,
                    ),
                    ..old(self)@
                },
                old(self)@.representation,
            ),
    {
        let ctx: Rc<Context> = Rc::clone(&self.ctx);
        apply_rows(
            &*ctx,
            RowOp::Mul,
            self.allow_variable_time_computations,
            &mut self.coefficients,
            Some(&q.coefficients),
            None,
        );
        match self.representation {
            Representation::NttShoup => {
                let _ = self.release_shoup();
                self.compute_coefficients_shoup();
            },
            _ => {},
        }
    }

    /// The context of the polynomial, shared.
    pub fn ctx(&self) -> (r: &Rc<Context>)
        ensures
            **r == self.context(),
            r@ == self@.ctx,
            self.inv() ==> r.wf(),
    {
        &self.ctx
    }
}

impl Clone for Poly {
    /// A polynomial with the same context, representation, flag and residues.
    fn clone(&self) -> (r: Self)
        ensures
            r@ == self@,
            r.context() == self.context(),
            self.inv() ==> r.inv(),
    {
        Poly {
            ctx: Rc::clone(&self.ctx),
            representation: self.representation,
            allow_variable_time_computations: self.allow_variable_time_computations,
            coefficients: array_clone(&self.coefficients),
            coefficients_shoup: match &self.coefficients_shoup {
                Some(s) => Some(array_clone(s)),
                None => None,
            },
        }
    }
}

} // verus!
