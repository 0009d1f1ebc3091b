use vstd::prelude::*;

verus! {

/// Section of the container whose checksum did not match.
#[derive(Debug, Clone, Copy, PartialEq, Eq, Structural)]
pub enum CRCVerificationError {
    Header,
    Data,
    Resource,
}

/// Failure while decoding a BinHex stream.
#[derive(Debug, Clone, Copy, PartialEq, Eq, Structural)]
#[non_exhaustive]
pub enum DecodeError {
    BadFormat,
    BadRunLengthEncoding,
    CRCVerificationError(CRCVerificationError),
}

/// Failure while assembling a container.
#[derive(Debug, Clone, Copy, PartialEq, Eq, Structural)]
#[non_exhaustive]
pub enum EncodeError {
    FileNameTooLong,
    DataTooLarge,
    ResourceTooLarge,
}

} // verus!
