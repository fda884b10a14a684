//! Error taxonomy of the engine, and the numeric status codes of its
//! C-compatible surface.

use vstd::prelude::*;

verus! {

/// Status codes of the engine's C-compatible surface.
///
/// `code` gives the numeric value of each status, as the wire protocol
/// fixes them.
#[allow(non_camel_case_types)]
#[derive(Debug, Copy, Clone, PartialEq, Eq, Structural)]
pub enum SevenZipErrorCode {
    SEVENZIP_OK,
    SEVENZIP_ERROR_OPEN_FILE,
    SEVENZIP_ERROR_INVALID_ARCHIVE,
    SEVENZIP_ERROR_MEMORY,
    SEVENZIP_ERROR_EXTRACT,
    SEVENZIP_ERROR_COMPRESS,
    SEVENZIP_ERROR_INVALID_PARAM,
    SEVENZIP_ERROR_NOT_IMPLEMENTED,
    SEVENZIP_ERROR_UNKNOWN,
}

impl SevenZipErrorCode {
    /// The numeric value of this status code.
    pub open spec fn spec_code(self) -> i32 {
        match self {
            SevenZipErrorCode::SEVENZIP_OK => 0,
            SevenZipErrorCode::SEVENZIP_ERROR_OPEN_FILE => 1,
            SevenZipErrorCode::SEVENZIP_ERROR_INVALID_ARCHIVE => 2,
            SevenZipErrorCode::SEVENZIP_ERROR_MEMORY => 3,
            SevenZipErrorCode::SEVENZIP_ERROR_EXTRACT => 4,
            SevenZipErrorCode::SEVENZIP_ERROR_COMPRESS => 5,
            SevenZipErrorCode::SEVENZIP_ERROR_INVALID_PARAM => 6,
            SevenZipErrorCode::SEVENZIP_ERROR_NOT_IMPLEMENTED => 7,
            SevenZipErrorCode::SEVENZIP_ERROR_UNKNOWN => 99,
        }
    }

    /// The numeric value of this status code.
    #[verifier::when_used_as_spec(spec_code)]
    pub fn code(self) -> (r: i32)
        ensures
            r == self.spec_code(),
    {
        match self {
            SevenZipErrorCode::SEVENZIP_OK => 0,
            SevenZipErrorCode::SEVENZIP_ERROR_OPEN_FILE => 1,
            SevenZipErrorCode::SEVENZIP_ERROR_INVALID_ARCHIVE => 2,
            SevenZipErrorCode::SEVENZIP_ERROR_MEMORY => 3,
            SevenZipErrorCode::SEVENZIP_ERROR_EXTRACT => 4,
            SevenZipErrorCode::SEVENZIP_ERROR_COMPRESS => 5,
            SevenZipErrorCode::SEVENZIP_ERROR_INVALID_PARAM => 6,
            SevenZipErrorCode::SEVENZIP_ERROR_NOT_IMPLEMENTED => 7,
            SevenZipErrorCode::SEVENZIP_ERROR_UNKNOWN => 99,
        }
    }
}

/// What can go wrong in an engine run.
///
/// `PathNotFound` and `PermissionDenied` classify enumeration failures on a
/// named root; `IoError` a read or write failure; `CorruptArchive` a checksum
/// or structure mismatch; `WrongPassword` a failed test-block verification;
/// `UnsupportedConfig` a configuration the engine rejects, such as resuming
/// with a fingerprint that does not match; `ResourceExhausted` an allocation
/// failure; `Cancelled` a cancellation observed between chunks;
/// `InvalidParameter` a malformed argument.
#[derive(Debug, Copy, Clone, PartialEq, Eq, Structural)]
pub enum Error {
    PathNotFound,
    PermissionDenied,
    IoError,
    CorruptArchive,
    WrongPassword,
    UnsupportedConfig,
    ResourceExhausted,
    Cancelled,
    InvalidParameter,
}

impl Error {
    /// The error a status code of the C-compatible surface stands for.
    pub open spec fn spec_from_code(code: SevenZipErrorCode) -> Error {
        match code {
            SevenZipErrorCode::SEVENZIP_OK => Error::InvalidParameter,
            SevenZipErrorCode::SEVENZIP_ERROR_OPEN_FILE => Error::PathNotFound,
            SevenZipErrorCode::SEVENZIP_ERROR_INVALID_ARCHIVE => Error::CorruptArchive,
            SevenZipErrorCode::SEVENZIP_ERROR_MEMORY => Error::ResourceExhausted,
            SevenZipErrorCode::SEVENZIP_ERROR_EXTRACT => Error::IoError,
            SevenZipErrorCode::SEVENZIP_ERROR_COMPRESS => Error::IoError,
            SevenZipErrorCode::SEVENZIP_ERROR_INVALID_PARAM => Error::InvalidParameter,
            SevenZipErrorCode::SEVENZIP_ERROR_NOT_IMPLEMENTED => Error::UnsupportedConfig,
            SevenZipErrorCode::SEVENZIP_ERROR_UNKNOWN => Error::IoError,
        }
    }

    /// Classify a status code of the C-compatible surface.
    ///
    /// `SEVENZIP_OK` is not an error; a caller that maps it anyway receives
    /// `InvalidParameter`.
    #[verifier::when_used_as_spec(spec_from_code)]
    pub fn from_code(code: SevenZipErrorCode) -> (r: Error)
        ensures
            r == Error::spec_from_code(code),
    {
        match code {
            SevenZipErrorCode::SEVENZIP_OK => Error::InvalidParameter,
            SevenZipErrorCode::SEVENZIP_ERROR_OPEN_FILE => Error::PathNotFound,
            SevenZipErrorCode::SEVENZIP_ERROR_INVALID_ARCHIVE => Error::CorruptArchive,
            SevenZipErrorCode::SEVENZIP_ERROR_MEMORY => Error::ResourceExhausted,
            SevenZipErrorCode::SEVENZIP_ERROR_EXTRACT => Error::IoError,
            SevenZipErrorCode::SEVENZIP_ERROR_COMPRESS => Error::IoError,
            SevenZipErrorCode::SEVENZIP_ERROR_INVALID_PARAM => Error::InvalidParameter,
            SevenZipErrorCode::SEVENZIP_ERROR_NOT_IMPLEMENTED => Error::UnsupportedConfig,
            SevenZipErrorCode::SEVENZIP_ERROR_UNKNOWN => Error::IoError,
        }
    }
}

} // verus!
