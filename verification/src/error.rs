//! The errors of the scheme.

use vstd::prelude::*;

verus! {

/// What is wrong with an argument.
#[derive(Clone, Copy, Debug, PartialEq, Eq, Structural)]
pub enum ArgumentError {
    /// The recovery threshold is zero or exceeds the number of storage nodes.
    ThresholdOutOfRange,
    /// The multiplicity is no power of two.
    MultiplicityNotPowerOfTwo,
    /// The number of code-word positions does not fit in 32 bits.
    CodeWordTooLong,
    /// The number of coefficients of a polynomial is no power of two.
    ChunkSizeNotPowerOfTwo,
    /// The multiplicity of the common data is zero.
    ZeroMultiplicity,
    /// The share's evaluations, divided by the multiplicity, are not as many
    /// as the commitments of the common data.
    EvalsCommitsMismatch,
    /// The common data names another number of storage nodes than the instance.
    NumStorageNodesMismatch,
    /// The commitment does not belong to the common data.
    InconsistentCommit,
    /// There are fewer shares than the recovery threshold.
    NotEnoughShares,
    /// The shares do not all hold the same number of evaluations.
    UnequalEvalsLengths,
    /// The shares do not hold one evaluation for each polynomial and each of
    /// the node's code-word positions.
    WrongEvalsLength,
}

/// Which computation failed.
#[derive(Clone, Copy, Debug, PartialEq, Eq, Structural)]
pub enum InternalError {
    /// The payload is longer than 32 bits can count.
    PayloadTooLong,
    /// The reference string is too short for the polynomials' degree.
    ReferenceStringTooShort,
    /// No evaluation domain of the size that is needed exists.
    DomainUnavailable,
    /// The decoder refused a group element, or a pairing had no result.
    GroupElement,
    /// The erasure decoder could not find the polynomial.
    ErasureDecode,
}

/// An error of the scheme.
#[derive(Clone, Copy, Debug, PartialEq, Eq, Structural)]
pub enum VidError {
    /// The caller handed over a malformed argument.
    Argument(ArgumentError),
    /// A computation inside the scheme failed.
    Internal(InternalError),
}

impl ArgumentError {
    /// The words that say what is wrong with the argument.
    pub open spec fn spec_message(&self) -> Seq<char> {
        match self {
            ArgumentError::ThresholdOutOfRange => "recovery_threshold is zero or exceeds num_storage_nodes"@,
            ArgumentError::MultiplicityNotPowerOfTwo => "multiplicity should be a power of two"@,
            ArgumentError::CodeWordTooLong => "multiplicity times num_storage_nodes does not fit in 32 bits"@,
            ArgumentError::ChunkSizeNotPowerOfTwo => "multiplicity times recovery_threshold should be a power of two"@,
            ArgumentError::ZeroMultiplicity => "common multiplicity is zero"@,
            ArgumentError::EvalsCommitsMismatch => "(share eval, common poly commit) lengths differ"@,
            ArgumentError::NumStorageNodesMismatch => "common num_storage_nodes differs from self"@,
            ArgumentError::InconsistentCommit => "common inconsistent with commit"@,
            ArgumentError::NotEnoughShares => "not enough shares"@,
            ArgumentError::UnequalEvalsLengths => "shares do not have equal evals lengths"@,
            ArgumentError::WrongEvalsLength => "num_evals should be (multiplicity * poly_commits)"@,
        }
    }

    /// What is wrong, in words.
    pub fn message(&self) -> (r: &'static str)
        ensures
            r@ == self.spec_message(),
    {
        match self {
            ArgumentError::ThresholdOutOfRange => "recovery_threshold is zero or exceeds num_storage_nodes",
            ArgumentError::MultiplicityNotPowerOfTwo => "multiplicity should be a power of two",
            ArgumentError::CodeWordTooLong => "multiplicity times num_storage_nodes does not fit in 32 bits",
            ArgumentError::ChunkSizeNotPowerOfTwo => "multiplicity times recovery_threshold should be a power of two",
            ArgumentError::ZeroMultiplicity => "common multiplicity is zero",
            ArgumentError::EvalsCommitsMismatch => "(share eval, common poly commit) lengths differ",
            ArgumentError::NumStorageNodesMismatch => "common num_storage_nodes differs from self",
            ArgumentError::InconsistentCommit => "common inconsistent with commit",
            ArgumentError::NotEnoughShares => "not enough shares",
            ArgumentError::UnequalEvalsLengths => "shares do not have equal evals lengths",
            ArgumentError::WrongEvalsLength => "num_evals should be (multiplicity * poly_commits)",
        }
    }
}

impl InternalError {
    /// The words that say which computation failed.
    pub open spec fn spec_message(&self) -> Seq<char> {
        match self {
            InternalError::PayloadTooLong => "payload length does not fit in 32 bits"@,
            InternalError::ReferenceStringTooShort => "reference string too short for the degree"@,
            InternalError::DomainUnavailable => "fail to construct domain"@,
            InternalError::GroupElement => "a group element did not decode"@,
            InternalError::ErasureDecode => "erasure decoding failed"@,
        }
    }

    /// What failed, in words.
    pub fn message(&self) -> (r: &'static str)
        ensures
            r@ == self.spec_message(),
    {
        match self {
            InternalError::PayloadTooLong => "payload length does not fit in 32 bits",
            InternalError::ReferenceStringTooShort => "reference string too short for the degree",
            InternalError::DomainUnavailable => "fail to construct domain",
            InternalError::GroupElement => "a group element did not decode",
            InternalError::ErasureDecode => "erasure decoding failed",
        }
    }
}

impl VidError {
    /// The words that say what went wrong: those of the error inside.
    pub open spec fn spec_message(&self) -> Seq<char> {
        match self {
            VidError::Argument(e) => e.spec_message(),
            VidError::Internal(e) => e.spec_message(),
        }
    }

    /// What went wrong, in words.
    pub fn message(&self) -> (r: &'static str)
        ensures
            r@ == self.spec_message(),
    {
        match self {
            VidError::Argument(e) => e.message(),
            VidError::Internal(e) => e.message(),
        }
    }
}

} // verus!
