//! What can be wrong with a document.
use vstd::prelude::*;

verus! {

/// Why the bytes at some offset are not the object that they should be.
#[derive(Debug, Clone, Copy, PartialEq, Eq, Structural)]
pub enum Problem {
    UnexpectedKeyword,
    UnexpectedToken,
    KeyIsNotAName,
    MissingEndstream,
    MissingObjectNumber,
    MissingGeneration,
    MissingObj,
    UnexpectedOperand,
    NoSuchPage,
    BadObjectStream,
}

/// Why no cross-reference table could be read.
#[derive(Debug, Clone, Copy, PartialEq, Eq, Structural)]
pub enum XrefProblem {
    NoStartxref,
    NoOffsetAfterStartxref,
    MissingXref,
    BadSubsectionHeader,
    BadEntryOffset,
    BadEntryGeneration,
    BadEntryKind,
    TrailerIsNotADictionary,
    NoUsableTrailer,
    BadXrefStream,
    NoObjects,
}

/// Which type was expected.
#[derive(Debug, Clone, Copy, PartialEq, Eq, Structural)]
pub enum Expected {
    Integer,
    Dictionary,
    Array,
    FourNumbers,
    StreamOrArray,
    ColorSpace,
}

/// Why a stream could not be decoded.
#[derive(Debug, Clone, Copy, PartialEq, Eq, Structural)]
pub enum DecodeProblem {
    Flate,
    AsciiHex,
    Ascii85,
    Lzw,
    Predictor,
    ZeroSize,
    TooShort,
    Jpeg,
}

#[derive(Debug, PartialEq, Eq)]
pub enum PdfError {
    UnexpectedEof(usize),
    UnexpectedByte { byte: u8, offset: usize },
    InvalidObject(usize, Problem),
    InvalidXref(XrefProblem),
    ObjectNotFound(u32, u16),
    MissingKey(String),
    UnexpectedType(Expected),
    UnsupportedFilter(String),
    DecodeError(DecodeProblem),
    Encrypted,
    IncorrectPassword,
}

/// An error by what it says.
pub ghost enum ErrorModel {
    UnexpectedEof(int),
    UnexpectedByte(u8, int),
    InvalidObject(int, Problem),
    InvalidXref(XrefProblem),
    ObjectNotFound(u32, u16),
    MissingKey(Seq<char>),
    UnexpectedType(Expected),
    UnsupportedFilter(Seq<char>),
    DecodeError(DecodeProblem),
    Encrypted,
    IncorrectPassword,
}

impl View for PdfError {
    type V = ErrorModel;

    open spec fn view(&self) -> ErrorModel {
        match *self {
            PdfError::UnexpectedEof(n) => ErrorModel::UnexpectedEof(n as int),
            PdfError::UnexpectedByte { byte, offset } => ErrorModel::UnexpectedByte(
                byte,
                offset as int,
            ),
            PdfError::InvalidObject(n, p) => ErrorModel::InvalidObject(n as int, p),
            PdfError::InvalidXref(p) => ErrorModel::InvalidXref(p),
            PdfError::ObjectNotFound(n, g) => ErrorModel::ObjectNotFound(n, g),
            PdfError::MissingKey(k) => ErrorModel::MissingKey(k@),
            PdfError::UnexpectedType(t) => ErrorModel::UnexpectedType(t),
            PdfError::UnsupportedFilter(f) => ErrorModel::UnsupportedFilter(f@),
            PdfError::DecodeError(p) => ErrorModel::DecodeError(p),
            PdfError::Encrypted => ErrorModel::Encrypted,
            PdfError::IncorrectPassword => ErrorModel::IncorrectPassword,
        }
    }
}

} // verus!
