//! The errors that the library reports to its callers.
use vstd::prelude::*;
use crate::id_codec::{CodecFault, PdfwmCodecError};

verus! {

#[derive(Debug)]
pub enum PdfwmError {
    InvalidArgument(String),
    InvalidId(String),
    IdTooLong(String),
    Config(String),
    Pdf(String),
    Image(String),
    Watermark(String),
    AmbiguousWatermark(String),
    Limit(String),
}

/// The mathematical content of a [`PdfwmError`]: its kind and message characters.
pub enum Fault {
    InvalidArgument(Seq<char>),
    InvalidId(Seq<char>),
    IdTooLong(Seq<char>),
    Config(Seq<char>),
    Pdf(Seq<char>),
    Image(Seq<char>),
    Watermark(Seq<char>),
    AmbiguousWatermark(Seq<char>),
    Limit(Seq<char>),
}

impl View for PdfwmError {
    type V = Fault;

    open spec fn view(&self) -> Fault {
        match self {
            PdfwmError::InvalidArgument(m) => Fault::InvalidArgument(m@),
            PdfwmError::InvalidId(m) => Fault::InvalidId(m@),
            PdfwmError::IdTooLong(m) => Fault::IdTooLong(m@),
            PdfwmError::Config(m) => Fault::Config(m@),
            PdfwmError::Pdf(m) => Fault::Pdf(m@),
            PdfwmError::Image(m) => Fault::Image(m@),
            PdfwmError::Watermark(m) => Fault::Watermark(m@),
            PdfwmError::AmbiguousWatermark(m) => Fault::AmbiguousWatermark(m@),
            PdfwmError::Limit(m) => Fault::Limit(m@),
        }
    }
}

/// A codec error becomes the library error of the same meaning; a bad payload is a
/// watermark that could not be read.
pub open spec fn codec_error_as_error(e: PdfwmCodecError) -> PdfwmError {
    match e {
        PdfwmCodecError::InvalidId(m) => PdfwmError::InvalidId(m),
        PdfwmCodecError::IdTooLong(m) => PdfwmError::IdTooLong(m),
        PdfwmCodecError::InvalidPayload(m) => PdfwmError::Watermark(m),
    }
}

/// The library fault that a codec fault becomes.
pub open spec fn codec_fault_as_fault(f: CodecFault) -> Fault {
    match f {
        CodecFault::InvalidId(m) => Fault::InvalidId(m),
        CodecFault::IdTooLong(m) => Fault::IdTooLong(m),
        CodecFault::InvalidPayload(m) => Fault::Watermark(m),
    }
}

/// Converts a codec error into the library error of the same meaning.
pub fn from_codec_error(value: PdfwmCodecError) -> (r: PdfwmError)
    ensures
        r@ == codec_fault_as_fault(value@),
        r == codec_error_as_error(value),
{
    PdfwmError::from(value)
}

impl From<PdfwmCodecError> for PdfwmError {
    fn from(value: PdfwmCodecError) -> (r: Self) {
        match value {
            PdfwmCodecError::InvalidId(message) => PdfwmError::InvalidId(message),
            PdfwmCodecError::IdTooLong(message) => PdfwmError::IdTooLong(message),
            PdfwmCodecError::InvalidPayload(message) => PdfwmError::Watermark(message),
        }
    }
}

impl vstd::std_specs::convert::FromSpecImpl<PdfwmCodecError> for PdfwmError {
    open spec fn obeys_from_spec() -> bool {
        true
    }

    open spec fn from_spec(v: PdfwmCodecError) -> Self {
        codec_error_as_error(v)
    }
}

} // verus!
