//! The operators `+`, `-`, `*` and unary `-` on references to polynomials.
//!
//! What each operator asks of its operands is its `*_req`; what it returns is
//! stated by the `ensures` of the operator, over the view of the result. A
//! polynomial holds tables that have no value in specifications, so no `*_spec`
//! can name the result, and `obeys_*_spec` is false throughout.
use crate::big::big_value;
use crate::convert::scaled_view;
use crate::poly::{
    lemma_mul_rows_commute, map_rows, override_view, Poly, PolyView, Representation, RowOp,
};
use num_bigint::BigUint;
use std::ops::{Add, Mul, Neg, Sub};
use vstd::prelude::*;
use vstd::std_specs::ops::{AddSpecImpl, MulSpecImpl, NegSpecImpl, SubSpecImpl};

verus! {

impl<'a> AddSpecImpl<&'a Poly> for &'a Poly {
    open spec fn obeys_add_spec() -> bool {
        false
    }

    open spec fn add_req(self, p: &'a Poly) -> bool {
        &&& self.wf()
        &&& p.wf()
        &&& self@.ctx == p@.ctx
        &&& self@.representation != Representation::NttShoup
        &&& self@.representation == p@.representation
    }

    open spec fn add_spec(self, p: &'a Poly) -> Poly {
        arbitrary()
    }
}

impl<'a> Add<&'a Poly> for &'a Poly {
    type Output = Poly;

    /// The sum of two polynomials of the same context and representation, which
    /// is not `NttShoup`.
    fn add(self, p: &'a Poly) -> (r: Poly)
        ensures
            r.wf(),
            r@ == (PolyView {
                coefficients: map_rows(
                    RowOp::Add,
                    self@.coefficients,
                    p@.coefficients,
                    p@.ctx.moduli,
                ),
                ..self@
            }),
    {
        let mut q: Poly = self.clone();
        q.add_assign(p);
        q
    }
}

impl<'a> SubSpecImpl<&'a Poly> for &'a Poly {
    open spec fn obeys_sub_spec() -> bool {
        false
    }

    open spec fn sub_req(self, p: &'a Poly) -> bool {
        &&& self.wf()
        &&& p.wf()
        &&& self@.ctx == p@.ctx
        &&& self@.representation != Representation::NttShoup
        &&& self@.representation == p@.representation
    }

    open spec fn sub_spec(self, p: &'a Poly) -> Poly {
        arbitrary()
    }
}

impl<'a> Sub<&'a Poly> for &'a Poly {
    type Output = Poly;

    /// The difference of two polynomials of the same context and
    /// representation, which is not `NttShoup`.
    fn sub(self, p: &'a Poly) -> (r: Poly)
        ensures
            r.wf(),
            r@ == (PolyView {
                coefficients: map_rows(
                    RowOp::Sub,
                    self@.coefficients,
                    p@.coefficients,
                    p@.ctx.moduli,
                ),
                ..self@
            }),
    {
        let mut q: Poly = self.clone();
        q.sub_assign(p);
        q
    }
}

impl<'a> MulSpecImpl<&'a Poly> for &'a Poly {
    open spec fn obeys_mul_spec() -> bool {
        false
    }

    open spec fn mul_req(self, p: &'a Poly) -> bool {
        &&& self.wf()
        &&& p.wf()
        &&& self@.ctx == p@.ctx
        &&& self@.representation != Representation::PowerBasis
        &&& p@.representation != Representation::PowerBasis
    }

    open spec fn mul_spec(self, p: &'a Poly) -> Poly {
        arbitrary()
    }
}

impl<'a> Mul<&'a Poly> for &'a Poly {
    type Output = Poly;

    /// The product, in `Ntt`, of two polynomials of the same context, neither of
    /// which is in `PowerBasis`. Where the first is in `NttShoup`, the product is
    /// computed from a copy of the second, brought to `Ntt` if need be, times
    /// the first: it then has the variable time flag of the second.
    fn mul(self, p: &'a Poly) -> (r: Poly)
        ensures
            r.wf(),
            r@ == (PolyView {
                ctx: self@.ctx,
                representation: Representation::Ntt,
                variable_time: if self@.representation == Representation::NttShoup {
                    p@.variable_time
                } else {
                    self@.variable_time
                },
                coefficients: map_rows(
                    RowOp::Mul,
                    self@.coefficients,
                    p@.coefficients,
                    p@.ctx.moduli,
                ),
                shoup: None,
            }),
    {
        match self.representation() {
            Representation::NttShoup => {
                let mut q: Poly = p.clone();
                q.override_representation(Representation::Ntt);
                q.mul_assign(self);
                proof {
                    self.lemma_inv();
                    p.lemma_inv();
                    lemma_mul_rows_commute(p@.coefficients, self@.coefficients, p@.ctx);
                }
                q
            },
            _ => {
                let mut q: Poly = self.clone();
                q.mul_assign(p);
                proof {
                    self.lemma_inv();
                }
                q
            },
        }
    }
}

impl<'a> MulSpecImpl<&'a BigUint> for &'a Poly {
    open spec fn obeys_mul_spec() -> bool {
        false
    }

    open spec fn mul_req(self, p: &'a BigUint) -> bool {
        self.wf()
    }

    open spec fn mul_spec(self, p: &'a BigUint) -> Poly {
        arbitrary()
    }
}

impl<'a> Mul<&'a BigUint> for &'a Poly {
    type Output = Poly;

    /// The product of a polynomial and an integer.
    fn mul(self, p: &'a BigUint) -> (r: Poly)
        ensures
            r.wf(),
            r@ == scaled_view(self@, big_value(*p) as int),
    {
        self.mul_scalar(p)
    }
}

impl<'a> MulSpecImpl<&'a Poly> for &'a BigUint {
    open spec fn obeys_mul_spec() -> bool {
        false
    }

    open spec fn mul_req(self, p: &'a Poly) -> bool {
        p.wf()
    }

    open spec fn mul_spec(self, p: &'a Poly) -> Poly {
        arbitrary()
    }
}

impl<'a> Mul<&'a Poly> for &'a BigUint {
    type Output = Poly;

    /// The product of an integer and a polynomial.
    fn mul(self, p: &'a Poly) -> (r: Poly)
        ensures
            r.wf(),
            r@ == scaled_view(p@, big_value(*self) as int),
    {
        p.mul_scalar(self)
    }
}

impl<'a> NegSpecImpl for &'a Poly {
    open spec fn obeys_neg_spec() -> bool {
        false
    }

    open spec fn neg_req(self) -> bool {
        self.wf()
    }

    open spec fn neg_spec(self) -> Poly {
        arbitrary()
    }
}

impl<'a> Neg for &'a Poly {
    type Output = Poly;

    /// The opposite of a polynomial, in the same representation; in `NttShoup`
    /// with the Shoup encoding of the new residues.
    fn neg(self) -> (r: Poly)
        ensures
            r.wf(),
            r@ == override_view(
                PolyView {
                    coefficients: map_rows(
                        RowOp::Neg,
                        self@.coefficients,
                        self@.coefficients,
                        self@.ctx.moduli,
                    ),
                    ..self@
                },
                self@.representation,
            ),
    {
        let mut out: Poly = self.clone();
        out.neg_assign();
        out
    }
}

} // verus!
