//! The record that a polynomial travels as: the tag of its representation, its
//! degree, and the bytes of its residues, one run of bytes for each modulus.
use crate::arith::reduced;
use crate::array::{array_row, array_rows, has_shape, rows_of_flat, ResidueArray};
use crate::context::{Context, ContextView};
use crate::convert::{convert_words, converted, TryConvertFrom};
use crate::error::Error;
use crate::poly::{Poly, PolyView, Representation};
use crate::zq::{decodable, decode_words, encode_words, Modulus};
use std::rc::Rc;
use vstd::arithmetic::div_mod::*;
use vstd::prelude::*;
use vstd::slice::slice_subrange;

verus! {

/// The representation that a record names; a record may also name none that
/// is known.
#[derive(Debug, Clone, Copy, PartialEq, Eq, Structural)]
pub enum WireRepresentation {
    /// No representation that is known.
    Unknown,
    /// The coefficients of the polynomial.
    PowerBasis,
    /// The transform of the coefficients.
    Ntt,
    /// The transform of the coefficients, to be held with its Shoup encoding.
    NttShoup,
}

/// A polynomial on the wire.
#[derive(Debug, PartialEq, Eq)]
pub struct RqRecord {
    /// The representation of the residues.
    pub representation: WireRepresentation,
    /// The number of residues for each modulus.
    pub degree: u32,
    /// The residues of the first modulus, then those of the second, and so on:
    /// eight bytes for each residue, the lowest byte first.
    pub coefficients: Vec<u8>,
}

/// The tag of a representation.
pub open spec fn wire_tag(r: Representation) -> WireRepresentation {
    match r {
        Representation::PowerBasis => WireRepresentation::PowerBasis,
        Representation::Ntt => WireRepresentation::Ntt,
        Representation::NttShoup => WireRepresentation::NttShoup,
    }
}

/// The representation that a tag names, if any.
pub open spec fn tag_representation(t: WireRepresentation) -> Option<Representation> {
    match t {
        WireRepresentation::Unknown => None,
        WireRepresentation::PowerBasis => Some(Representation::PowerBasis),
        WireRepresentation::Ntt => Some(Representation::Ntt),
        WireRepresentation::NttShoup => Some(Representation::NttShoup),
    }
}

/// The bytes of a table with rows of `n` residues: the bytes of its rows, one
/// row after the other.
pub open spec fn encode_table(rows: Seq<Seq<u64>>, n: nat) -> Seq<u8> {
    Seq::new(
        rows.len() * (8 * n),
        |k: int| encode_words(rows[k / (8 * n as int)])[k % (8 * n as int)],
    )
}

/// The run of bytes of modulus `i`, where each modulus has `degree` residues.
pub open spec fn record_chunk(bytes: Seq<u8>, degree: nat, i: int) -> Seq<u8> {
    bytes.subrange(i * (8 * degree), i * (8 * degree) + 8 * degree)
}

/// Every run of bytes stands for residues of its modulus.
pub open spec fn record_decodable(bytes: Seq<u8>, moduli: Seq<u64>, degree: nat) -> bool {
    forall|i: int|
        0 <= i < moduli.len() ==> decodable(
            #[trigger] record_chunk(bytes, degree, i),
            moduli[i] as int,
        )
}

/// The residues that the bytes stand for, those of the first modulus first.
pub open spec fn record_words(bytes: Seq<u8>, m: nat, degree: nat) -> Seq<u64> {
    Seq::new(
        m * degree,
        |k: int| decode_words(record_chunk(bytes, degree, k / (degree as int)))[k % (degree as int)],
    )
}

/// What decoding a record gives. The record must name a representation, which
/// must be the one asked for where one is asked for; its degree must be a
/// multiple of 8, and not zero; it must hold eight bytes for each residue of
/// each modulus, which must stand for residues; and these are then converted
/// as a vector of words is.
pub open spec fn decode_record(
    tag: WireRepresentation,
    degree: nat,
    bytes: Seq<u8>,
    ctx: ContextView,
    asked: Option<Representation>,
) -> Result<PolyView, Error> {
    match tag_representation(tag) {
        None => Err(Error::UnknownRepresentation),
        Some(found) => if asked is Some && asked != Some(found) {
            Err(Error::RepresentationMismatch)
        } else if degree % 8 != 0 || degree < 8 {
            Err(Error::InvalidRecordDegree)
        } else if bytes.len() != ctx.moduli.len() * (8 * degree) {
            Err(Error::InvalidCoefficients)
        } else if !record_decodable(bytes, ctx.moduli, degree) {
            Err(Error::UndecodableCoefficients)
        } else {
            convert_words(record_words(bytes, ctx.moduli.len(), degree), ctx, Some(found))
        },
    }
}

impl Poly {
    /// The record of the polynomial. The degree must fit the 32 bits that the
    /// record has for it.
    pub fn to_record(&self) -> (r: RqRecord)
        requires
            self.inv(),
            self@.ctx.degree <= u32::MAX,
        ensures
            r.representation == wire_tag(self@.representation),
            r.degree == self@.ctx.degree,
            r.coefficients@ == encode_table(self@.coefficients, self@.ctx.degree),
    {
        proof {
            self.lemma_inv();
            self.context().lemma_wf();
        }
        let representation: WireRepresentation = match self.representation() {
            Representation::PowerBasis => WireRepresentation::PowerBasis,
            Representation::Ntt => WireRepresentation::Ntt,
            Representation::NttShoup => WireRepresentation::NttShoup,
        };
        let ctx: &Rc<Context> = self.ctx();
        let table: &ResidueArray = self.coefficients();
        let m: usize = ctx.len();
        let n: usize = ctx.degree();
        let ghost rows = self@.coefficients;
        let ghost size = 8 * n;
        let mut serialization: Vec<u8> = Vec::new();
        let mut i: usize = 0;
        while i < m
            invariant
                ctx.wf(),
                0 <= i <= m,
                m == rows.len(),
                m == ctx@.moduli.len(),
                n == self@.ctx.degree,
                size == 8 * n,
                n >= 8,
                rows == array_rows(*table),
                has_shape(*table, m as nat, n as nat),
                serialization@.len() == i * size,
                forall|k: int|
                    0 <= k < i * size ==> (#[trigger] serialization@[k]) == encode_words(
                        rows[k / size],
                    )[k % size],
            decreases m - i,
        {
            let q: &Modulus = ctx.modulus_at(i);
            let bytes: Vec<u8> = q.serialize_vec(array_row(table, i));
            let ghost before = serialization@;
            serialization.extend_from_slice(bytes.as_slice());
            proof {
                assert(i * size + size == (i + 1) * size) by (nonlinear_arith);
                assert forall|k: int| 0 <= k < (i + 1) * size implies (#[trigger] serialization@[k])
                    == encode_words(rows[k / size])[k % size] by {
                    if k >= i * size {
                        let t = k - i * size;
                        lemma_fundamental_div_mod_converse(k, size, i as int, t);
                        assert(serialization@[k] == bytes@[t]);
                    } else {
                        assert(serialization@[k] == before[k]);
                    }
                }
            }
            i += 1;
        }
        assert(serialization@ =~= encode_table(rows, n as nat));
        RqRecord { representation, degree: n as u32, coefficients: serialization }
    }
}

impl<'a> TryConvertFrom<&'a RqRecord> for Poly {
    /// Decodes a record into a polynomial of the context `ctx`, in the
    /// representation that the record names, which `representation` may ask for
    /// in advance.
    fn try_convert_from(
        value: &'a RqRecord,
        ctx: &Rc<Context>,
        representation: Option<Representation>,
    ) -> (r: Result<Self, Error>)
        ensures
            converted(
                r,
                **ctx,
                decode_record(
                    value.representation,
                    value.degree as nat,
                    value.coefficients@,
                    ctx@,
                    representation,
                ),
            ),
            r matches Ok(p) ==> p.wf(),
    {
        let found: Representation = match value.representation {
            WireRepresentation::PowerBasis => Representation::PowerBasis,
            WireRepresentation::Ntt => Representation::Ntt,
            WireRepresentation::NttShoup => Representation::NttShoup,
            WireRepresentation::Unknown => {
                return Err(Error::UnknownRepresentation);
            },
        };
        match representation {
            Some(asked) => {
                if asked != found {
                    return Err(Error::RepresentationMismatch);
                }
            },
            None => {},
        }
        let degree: usize = value.degree as usize;
        if degree % 8 != 0 || degree < 8 {
            return Err(Error::InvalidRecordDegree);
        }
        let m: usize = ctx.len();
        let bytes: &[u8] = value.coefficients.as_slice();
        assert(m * (8 * degree) <= u128::MAX) by (nonlinear_arith)
            requires
                m <= u64::MAX,
                degree <= u32::MAX,
        ;
        let expected_nbytes: u128 = (m as u128) * (8 * (degree as u128));
        if bytes.len() as u128 != expected_nbytes {
            return Err(Error::InvalidCoefficients);
        }
        proof {
            ctx.lemma_wf();
        }
        assert(8 * degree <= usize::MAX) by (nonlinear_arith)
            requires
                m * (8 * degree) <= usize::MAX,
                m >= 1,
                degree >= 0,
        ;
        let size: usize = 8 * degree;
        let ghost moduli = ctx@.moduli;
        let mut coefficients: Vec<u64> = Vec::new();
        let mut i: usize = 0;
        while i < m
            invariant
                ctx.wf(),
                0 <= i <= m,
                m == moduli.len(),
                moduli == ctx@.moduli,
                degree >= 8,
                size == 8 * degree,
                bytes@.len() == m * size,
                m * size <= usize::MAX,
                bytes@ == value.coefficients@,
                degree == value.degree,
                degree % 8 == 0,
                tag_representation(value.representation) == Some(found),
                !(representation is Some && representation != Some(found)),
                coefficients@.len() == i * degree,
                forall|t: int|
                    0 <= t < i ==> decodable(
                        #[trigger] record_chunk(bytes@, degree as nat, t),
                        moduli[t] as int,
                    ),
                forall|k: int|
                    0 <= k < i * degree ==> (#[trigger] coefficients@[k]) == decode_words(
                        record_chunk(bytes@, degree as nat, k / (degree as int)),
                    )[k % (degree as int)],
                forall|k: int|
                    0 <= k < i * degree ==> (#[trigger] coefficients@[k]) < moduli[k / (
                    degree as int)],
            decreases m - i,
        {
            assert(0 <= i * size && i * size + size <= m * size) by (nonlinear_arith)
                requires
                    0 <= i < m,
                    size >= 0,
            ;
            let q: &Modulus = ctx.modulus_at(i);
            let chunk: &[u8] = slice_subrange(bytes, i * size, i * size + size);
            assert(chunk@ == record_chunk(bytes@, degree as nat, i as int));
            match q.deserialize_vec(chunk) {
                None => {
                    assert(!decodable(
                        record_chunk(bytes@, degree as nat, i as int),
                        moduli[i as int] as int,
                    ));
                    return Err(Error::UndecodableCoefficients);
                },
                Some(v) => {
                    let ghost before = coefficients@;
                    coefficients.extend_from_slice(v.as_slice());
                    proof {
                        assert(v@.len() == degree);
                        assert(i * degree + degree == (i + 1) * degree) by (nonlinear_arith);
                        assert forall|k: int| 0 <= k < (i + 1) * degree implies (
                        #[trigger] coefficients@[k]) == decode_words(
                            record_chunk(bytes@, degree as nat, k / (degree as int)),
                        )[k % (degree as int)] by {
                            if k >= i * degree {
                                let t = k - i * degree;
                                lemma_fundamental_div_mod_converse(k, degree as int, i as int, t);
                                assert(coefficients@[k] == v@[t]);
                            } else {
                                assert(coefficients@[k] == before[k]);
                            }
                        }
                        assert forall|k: int| 0 <= k < (i + 1) * degree implies (
                        #[trigger] coefficients@[k]) < moduli[k / (degree as int)] by {
                            if k >= i * degree {
                                let t = k - i * degree;
                                lemma_fundamental_div_mod_converse(k, degree as int, i as int, t);
                                assert(coefficients@[k] == v@[t]);
                            } else {
                                assert(coefficients@[k] == before[k]);
                            }
                        }
                    }
                },
            }
            i += 1;
        }
        assert(coefficients@ =~= record_words(bytes@, m as nat, degree as nat));
        let ghost words = coefficients@;
        let r = <Poly as TryConvertFrom<Vec<u64>>>::try_convert_from(coefficients, ctx, Some(found));
        proof {
            let n = ctx@.degree as int;
            if r is Ok && words.len() == m * n {
                // the record has the degree of the context: row i holds the words of modulus i
                assert(degree == n) by (nonlinear_arith)
                    requires
                        m * degree == m * n,
                        m >= 1,
                ;
                let rows = rows_of_flat(words, m as nat, n as nat);
                assert forall|i: int| 0 <= i < m implies reduced(#[trigger] rows[i], moduli[i] as int) by {
                    assert(0 <= i * n && i * n + n <= m * n) by (nonlinear_arith)
                        requires
                            0 <= i < m,
                            n >= 0,
                    ;
                    assert forall|j: int| 0 <= j < n implies (#[trigger] rows[i][j]) < moduli[i] by {
                        lemma_fundamental_div_mod_converse(i * n + j, n, i, j);
                        assert(rows[i][j] == words[i * n + j]);
                    }
                }
            }
        }
        r
    }
}

} // verus!
