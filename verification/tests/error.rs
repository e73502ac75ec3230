use advz::error::{ArgumentError, InternalError, VidError};

#[test]
fn every_argument_error_has_its_words() {
    let expected = [
        (
            ArgumentError::ThresholdOutOfRange,
            "recovery_threshold is zero or exceeds num_storage_nodes",
        ),
        (ArgumentError::MultiplicityNotPowerOfTwo, "multiplicity should be a power of two"),
        (
            ArgumentError::CodeWordTooLong,
            "multiplicity times num_storage_nodes does not fit in 32 bits",
        ),
        (
            ArgumentError::ChunkSizeNotPowerOfTwo,
            "multiplicity times recovery_threshold should be a power of two",
        ),
        (ArgumentError::ZeroMultiplicity, "common multiplicity is zero"),
        (
            ArgumentError::EvalsCommitsMismatch,
            "(share eval, common poly commit) lengths differ",
        ),
        (ArgumentError::NumStorageNodesMismatch, "common num_storage_nodes differs from self"),
        (ArgumentError::InconsistentCommit, "common inconsistent with commit"),
        (ArgumentError::NotEnoughShares, "not enough shares"),
        (ArgumentError::UnequalEvalsLengths, "shares do not have equal evals lengths"),
        (ArgumentError::WrongEvalsLength, "num_evals should be (multiplicity * poly_commits)"),
    ];
    for (e, words) in expected {
        assert_eq!(e.message(), words);
        assert_eq!(VidError::Argument(e).message(), words);
    }
}

#[test]
fn every_internal_error_has_its_words() {
    let expected = [
        (InternalError::PayloadTooLong, "payload length does not fit in 32 bits"),
        (InternalError::ReferenceStringTooShort, "reference string too short for the degree"),
        (InternalError::DomainUnavailable, "fail to construct domain"),
        (InternalError::GroupElement, "a group element did not decode"),
        (InternalError::ErasureDecode, "erasure decoding failed"),
    ];
    for (e, words) in expected {
        assert_eq!(e.message(), words);
        assert_eq!(VidError::Internal(e).message(), words);
    }
}
