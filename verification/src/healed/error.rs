//! The error type of the self-healing storage and its classification into
//! recoverable and fatal errors.

use vstd::prelude::*;

use crate::bitflip::BitFlipError;
use crate::healed::ecc::EccError;
use crate::healed::rs::RsError;
use crate::healed::tmr::TmrError;

verus! {

/// Whether an error can be recovered from.
#[derive(Debug, Clone, Copy, PartialEq, Eq, Structural)]
pub enum ErrorClass {
    Recoverable,
    Fatal,
}

/// The kinds of I/O error that the classification tells apart.
#[derive(Debug, Clone, Copy, PartialEq, Eq, Structural)]
pub enum IoErrorKind {
    NotFound,
    InvalidData,
    InvalidInput,
    UnexpectedEof,
    WouldBlock,
    Interrupted,
    TimedOut,
    Other,
}

#[verifier::external_type_specification]
#[verifier::external_body]
pub struct ExBincodeErrorKind(bincode::ErrorKind);

/// Errors of the storage library.
#[derive(Debug)]
pub enum Error {
    InvalidProtectionLevel,
    FrameTooShort,
    UnrecoverableHeader,
    CrcMismatch,
    InvalidFrameFormat,
    Ecc(EccError),
    BitFlip(BitFlipError),
    Tmr(TmrError),
    Rs(RsError),
    Bincode(Box<bincode::ErrorKind>),
    Io(std::io::Error),
}

/// Class of an I/O error of a given kind: the transient and data-related
/// kinds are recoverable, the rest fatal.
pub open spec fn spec_io_kind_class(kind: IoErrorKind) -> ErrorClass {
    match kind {
        IoErrorKind::Other => ErrorClass::Fatal,
        _ => ErrorClass::Recoverable,
    }
}

/// The kind that `std::io::Error::kind` reports for `e`, in the terms of
/// [`IoErrorKind`].
pub uninterp spec fn spec_io_error_kind(e: std::io::Error) -> IoErrorKind;

/// Class of an error: I/O errors by their kind, invalid protection levels and
/// serialisation errors fatal, format and integrity errors recoverable.
pub open spec fn spec_error_class(e: Error) -> ErrorClass {
    match e {
        Error::Io(io) => spec_io_kind_class(spec_io_error_kind(io)),
        Error::InvalidProtectionLevel => ErrorClass::Fatal,
        Error::Bincode(_) => ErrorClass::Fatal,
        _ => ErrorClass::Recoverable,
    }
}

/// The error is recoverable.
pub open spec fn spec_is_recoverable(e: Error) -> bool {
    spec_error_class(e) == ErrorClass::Recoverable
}

/// Class of an I/O error of kind `kind`.
pub fn class_of_io_kind(kind: IoErrorKind) -> (r: ErrorClass)
    ensures
        r == spec_io_kind_class(kind),
{
    match kind {
        IoErrorKind::NotFound | IoErrorKind::InvalidData | IoErrorKind::InvalidInput | IoErrorKind::UnexpectedEof
        | IoErrorKind::WouldBlock | IoErrorKind::Interrupted | IoErrorKind::TimedOut => ErrorClass::Recoverable,
        IoErrorKind::Other => ErrorClass::Fatal,
    }
}

/// `std::io::Error::kind` of `e`, with the kinds that the classification
/// does not name mapped to `Other`.
#[verifier::external_body]
fn io_error_kind(e: &std::io::Error) -> (r: IoErrorKind)
    ensures
        r == spec_io_error_kind(*e),
{
    match e.kind() {
        std::io::ErrorKind::NotFound => IoErrorKind::NotFound,
        std::io::ErrorKind::InvalidData => IoErrorKind::InvalidData,
        std::io::ErrorKind::InvalidInput => IoErrorKind::InvalidInput,
        std::io::ErrorKind::UnexpectedEof => IoErrorKind::UnexpectedEof,
        std::io::ErrorKind::WouldBlock => IoErrorKind::WouldBlock,
        std::io::ErrorKind::Interrupted => IoErrorKind::Interrupted,
        std::io::ErrorKind::TimedOut => IoErrorKind::TimedOut,
        _ => IoErrorKind::Other,
    }
}

/// `std::io::Error::new(ErrorKind::NotFound, message)`: the error's
/// `kind()` is `NotFound`.
#[verifier::external_body]
pub(crate) fn not_found_error(message: &str) -> (r: std::io::Error)
    ensures
        spec_io_error_kind(r) == IoErrorKind::NotFound,
{
    std::io::Error::new(std::io::ErrorKind::NotFound, message.to_string())
}

impl Error {
    /// Whether the error is recoverable: I/O errors by their kind, invalid
    /// protection levels and serialisation errors are fatal, all format and
    /// integrity errors recoverable.
    pub fn class(&self) -> (r: ErrorClass)
        ensures
            r == spec_error_class(*self),
    {
        match self {
            Error::InvalidProtectionLevel | Error::Bincode(_) => ErrorClass::Fatal,
            Error::FrameTooShort | Error::UnrecoverableHeader | Error::CrcMismatch | Error::InvalidFrameFormat
            | Error::Ecc(_) | Error::BitFlip(_) | Error::Tmr(_) | Error::Rs(_) => ErrorClass::Recoverable,
            Error::Io(error) => class_of_io_kind(io_error_kind(error)),
        }
    }

    /// The error is recoverable.
    pub fn is_recoverable(&self) -> (r: bool)
        ensures
            r == spec_is_recoverable(*self),
    {
        self.class() == ErrorClass::Recoverable
    }

    /// The error is fatal.
    pub fn is_fatal(&self) -> (r: bool)
        ensures
            r == (spec_error_class(*self) == ErrorClass::Fatal),
    {
        self.class() == ErrorClass::Fatal
    }
}

} // verus!
