use reducto::error::{DecodeError, ErrorClass};

#[test]
fn every_failure_has_its_class() {
    let format = [
        DecodeError::UnexpectedEnd,
        DecodeError::BadMagic,
        DecodeError::BadMethod,
        DecodeError::ReservedBlockType,
        DecodeError::BadStoredLength,
        DecodeError::NoMatchingCode,
        DecodeError::BadSymbol,
        DecodeError::BadCodeLengths,
        DecodeError::BadReference,
        DecodeError::BadText,
    ];
    for error in format {
        assert_eq!(error.class(), ErrorClass::Format);
    }
    assert_eq!(DecodeError::Range.class(), ErrorClass::Range);
    assert_eq!(DecodeError::CrcMismatch.class(), ErrorClass::Integrity);
    assert_eq!(DecodeError::SizeMismatch.class(), ErrorClass::Integrity);
    assert_eq!(DecodeError::NothingCompressed.class(), ErrorClass::Usage);
    assert_eq!(DecodeError::NothingEncoded.class(), ErrorClass::Usage);
}
