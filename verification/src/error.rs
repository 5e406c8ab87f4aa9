//! The error type shared by container parsing and reconstruction.
use vstd::prelude::*;

verus! {

/// Errors returned by AVIF parsing and decoding.
#[derive(Debug, Clone, PartialEq, Eq)]
pub enum DecoderError {
    InvalidParam(String),
    NotEnoughData(String),
    Bitstream(String),
    Unsupported(String),
    Io(String),
}

impl DecoderError {
    /// The category name of the error.
    pub open spec fn category_text(self) -> Seq<char> {
        match self {
            DecoderError::InvalidParam(_) => "invalid parameter"@,
            DecoderError::NotEnoughData(_) => "not enough data"@,
            DecoderError::Bitstream(_) => "bitstream error"@,
            DecoderError::Unsupported(_) => "unsupported feature"@,
            DecoderError::Io(_) => "io error"@,
        }
    }

    /// The detail message of the error.
    pub open spec fn detail(self) -> Seq<char> {
        match self {
            DecoderError::InvalidParam(m) => m@,
            DecoderError::NotEnoughData(m) => m@,
            DecoderError::Bitstream(m) => m@,
            DecoderError::Unsupported(m) => m@,
            DecoderError::Io(m) => m@,
        }
    }

    /// The category name that prefixes the human-readable rendering.
    pub fn category(&self) -> (name: &'static str)
        ensures
            name@ == self.category_text(),
    {
        match self {
            DecoderError::InvalidParam(_) => "invalid parameter",
            DecoderError::NotEnoughData(_) => "not enough data",
            DecoderError::Bitstream(_) => "bitstream error",
            DecoderError::Unsupported(_) => "unsupported feature",
            DecoderError::Io(_) => "io error",
        }
    }

    /// The detail message carried by the error.
    pub fn message(&self) -> (message: &String)
        ensures
            match self {
                DecoderError::InvalidParam(m) => message == m,
                DecoderError::NotEnoughData(m) => message == m,
                DecoderError::Bitstream(m) => message == m,
                DecoderError::Unsupported(m) => message == m,
                DecoderError::Io(m) => message == m,
            },
    {
        match self {
            DecoderError::InvalidParam(m) => m,
            DecoderError::NotEnoughData(m) => m,
            DecoderError::Bitstream(m) => m,
            DecoderError::Unsupported(m) => m,
            DecoderError::Io(m) => m,
        }
    }
}

} // verus!

verus! {

impl DecoderError {
    /// The rendering `"<category>: <message>"`.
    pub fn to_string(&self) -> (text: String)
        ensures
            text@ == self.category_text() + ": "@ + self.detail(),
    {
        let head = crate::text::concat(self.category(), ": ");
        crate::text::concat(head.as_str(), self.message().as_str())
    }
}

} // verus!

verus! {

/// The category of a `DecoderError`, without its message.
#[derive(Debug, Clone, Copy, PartialEq, Eq, Structural)]
pub enum ErrorKind {
    InvalidParam,
    NotEnoughData,
    Bitstream,
    Unsupported,
    Io,
}

impl DecoderError {
    /// The category of the error.
    pub open spec fn kind(self) -> ErrorKind {
        match self {
            DecoderError::InvalidParam(_) => ErrorKind::InvalidParam,
            DecoderError::NotEnoughData(_) => ErrorKind::NotEnoughData,
            DecoderError::Bitstream(_) => ErrorKind::Bitstream,
            DecoderError::Unsupported(_) => ErrorKind::Unsupported,
            DecoderError::Io(_) => ErrorKind::Io,
        }
    }
}

/// A result agrees with an expected outcome: the same value, or an error of the same kind.
pub open spec fn outcome_matches<T>(result: Result<T, DecoderError>, expected: Result<T, ErrorKind>) -> bool {
    match (result, expected) {
        (Ok(value), Ok(wanted)) => value == wanted,
        (Err(error), Err(kind)) => error.kind() == kind,
        _ => false,
    }
}

} // verus!
