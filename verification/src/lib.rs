//! Polynomials of `R_q = (Z_q1 x ... x Z_qn)[x] / (x^N + 1)` in residue-number-system form.
//!
//! A [`context::Context`] fixes the moduli and the degree; a [`poly::Poly`] is a
//! table of residues of a context, in coefficient form or in transform form.
//! The arithmetic modulo one modulus is in [`zq`], the transform in [`ntt`],
//! the residue number system in [`rns`]. What holds across the functions of the
//! library is stated and proved in [`laws`]; the number theory that the proofs
//! rest on is in [`arith`], [`fermat`], [`roots`], [`twiddles`], [`evaluation`]
//! and [`ring`].
pub mod arith;
pub mod array;
pub mod big;
pub mod context;
pub mod context_eq;
pub mod convert;
pub mod error;
pub mod evaluation;
pub mod fermat;
pub mod laws;
pub mod ntt;
pub mod ops;
pub mod poly;
pub mod primes;
pub mod random;
pub mod ring;
pub mod rns;
pub mod roots;
pub mod sampling;
pub mod twiddles;
pub mod wipe;
pub mod wire;
pub mod zq;
