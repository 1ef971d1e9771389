//! The errors that the library returns.
use vstd::prelude::*;

verus! {

/// Why a context or a polynomial could not be built, or a context not be found.
#[derive(Debug, Clone, Copy, PartialEq, Eq, Structural)]
pub enum Error {
    /// The degree is not a power of two larger or equal to 8.
    InvalidDegree,
    /// The list of moduli is empty.
    EmptyModuli,
    /// The modulus is smaller than 2 or needs 62 bits or more.
    InvalidModulus(u64),
    /// Two of the moduli share a factor.
    ModuliNotCoprime,
    /// The moduli times the degree are more residues than the address space holds.
    TooLarge,
    /// No transform of the requested size exists for this modulus.
    NttNotSupported(u64),
    /// The context is not reachable from this one.
    InvalidContext,
    /// The chain of contexts is shorter than the requested level.
    NoContextAtLevel,
    /// A constant was to be converted into another representation than `PowerBasis`.
    ScalarNeedsPowerBasis,
    /// Signed integers were to be converted into another representation than `PowerBasis`.
    SignedNeedsPowerBasis,
    /// More signed integers than the degree were given.
    SignedTooLong,
    /// No representation was given for a vector.
    RepresentationNeeded,
    /// Fewer or more residues than the whole table were given for `Ntt`.
    NttNeedsAllCoefficients,
    /// Fewer or more residues than the whole table were given for `NttShoup`.
    NttShoupNeedsAllCoefficients,
    /// More coefficients than the degree, and not the whole table, were given for `PowerBasis`.
    PowerBasisWrongLength,
    /// The table of residues has not the shape of the context.
    ArrayShapeMismatch,
    /// No representation was given for a table of residues.
    ArrayRepresentationNeeded,
    /// More big integers than the degree were given.
    TooManyBigIntegers,
    /// The record names no known representation.
    UnknownRepresentation,
    /// The record is in another representation than the one asked for.
    RepresentationMismatch,
    /// The degree of the record is not a positive multiple of 8.
    InvalidRecordDegree,
    /// The record holds not as many bytes as the context and the degree ask for.
    InvalidCoefficients,
    /// The bytes of the record decode to no residues.
    UndecodableCoefficients,
    /// The variance is not between 1 and 16.
    InvalidVariance,
}

impl Error {
    /// The text of the error.
    pub fn message(&self) -> (r: &'static str)
        ensures
            r@ == self.message_spec(),
    {
        match self {
            Error::InvalidDegree => "The degree is not a power of two larger or equal to 8",
            Error::EmptyModuli => "The list of moduli is empty",
            Error::InvalidModulus(_) => "The modulus is invalid",
            Error::ModuliNotCoprime => "The moduli are not coprime",
            Error::TooLarge => "The moduli and the degree are too large",
            Error::NttNotSupported(_) => "Impossible to construct a Ntt operator",
            Error::InvalidContext => "Invalid context provided",
            Error::NoContextAtLevel => "No context at the specified level",
            Error::ScalarNeedsPowerBasis => "Converting from constant values is only possible in PowerBasis representation",
            Error::SignedNeedsPowerBasis => "Converting signed integer require to import in PowerBasis representation",
            Error::SignedTooLong => "In PowerBasis representation with signed integers, only `degree` coefficients can be specified",
            Error::RepresentationNeeded => "When converting from a vector, the representation needs to be specified",
            Error::NttNeedsAllCoefficients => "In Ntt representation, all coefficients must be specified",
            Error::NttShoupNeedsAllCoefficients => "In NttShoup representation, all coefficients must be specified",
            Error::PowerBasisWrongLength => "In PowerBasis representation, either all coefficients must be specified, or only coefficients up to the degree",
            Error::ArrayShapeMismatch => "The array of coefficient does not have the correct shape",
            Error::ArrayRepresentationNeeded => "When converting from a 2-dimensional array, the representation needs to be specified",
            Error::TooManyBigIntegers => "The slice contains too many big integers compared to the polynomial degree",
            Error::UnknownRepresentation => "Unknown representation",
            Error::RepresentationMismatch => "The representation asked for does not match the representation in the serialization",
            Error::InvalidRecordDegree => "Invalid degree",
            Error::InvalidCoefficients => "Invalid coefficients",
            Error::UndecodableCoefficients => "Could not deserialize the polynomial coefficients",
            Error::InvalidVariance => "The variance should be an integer between 1 and 16",
        }
    }

    /// The text of the error, as a sequence of characters.
    pub open spec fn message_spec(&self) -> Seq<char> {
        match self {
            Error::InvalidDegree => "The degree is not a power of two larger or equal to 8"@,
            Error::EmptyModuli => "The list of moduli is empty"@,
            Error::InvalidModulus(_) => "The modulus is invalid"@,
            Error::ModuliNotCoprime => "The moduli are not coprime"@,
            Error::TooLarge => "The moduli and the degree are too large"@,
            Error::NttNotSupported(_) => "Impossible to construct a Ntt operator"@,
            Error::InvalidContext => "Invalid context provided"@,
            Error::NoContextAtLevel => "No context at the specified level"@,
            Error::ScalarNeedsPowerBasis => "Converting from constant values is only possible in PowerBasis representation"@,
            Error::SignedNeedsPowerBasis => "Converting signed integer require to import in PowerBasis representation"@,
            Error::SignedTooLong => "In PowerBasis representation with signed integers, only `degree` coefficients can be specified"@,
            Error::RepresentationNeeded => "When converting from a vector, the representation needs to be specified"@,
            Error::NttNeedsAllCoefficients => "In Ntt representation, all coefficients must be specified"@,
            Error::NttShoupNeedsAllCoefficients => "In NttShoup representation, all coefficients must be specified"@,
            Error::PowerBasisWrongLength => "In PowerBasis representation, either all coefficients must be specified, or only coefficients up to the degree"@,
            Error::ArrayShapeMismatch => "The array of coefficient does not have the correct shape"@,
            Error::ArrayRepresentationNeeded => "When converting from a 2-dimensional array, the representation needs to be specified"@,
            Error::TooManyBigIntegers => "The slice contains too many big integers compared to the polynomial degree"@,
            Error::UnknownRepresentation => "Unknown representation"@,
            Error::RepresentationMismatch => "The representation asked for does not match the representation in the serialization"@,
            Error::InvalidRecordDegree => "Invalid degree"@,
            Error::InvalidCoefficients => "Invalid coefficients"@,
            Error::UndecodableCoefficients => "Could not deserialize the polynomial coefficients"@,
            Error::InvalidVariance => "The variance should be an integer between 1 and 16"@,
        }
    }
}

} // verus!
