//! The ways in which loading an image can fail.

use vstd::prelude::*;
use vstd::std_specs::convert::FromSpecImpl;

verus! {

/// The various types of errors that can occur while loading an image.
#[derive(Debug, Clone, Copy, PartialEq, Eq, Structural)]
pub enum LoadError {
    /// A lower level io error was raised.
    Io,
    /// The image file ended unexpectedly.
    Eof,
    /// The file did not follow valid Radiance HDR format.
    FileFormat,
    /// The image file contained invalid run-length encoding.
    Rle,
}

/// What a failed read reported: that the stream ended early, or anything else.
#[derive(Debug, Clone, Copy, PartialEq, Eq, Structural)]
pub enum IoErrorKind {
    /// The stream ended before the requested bytes were delivered.
    UnexpectedEof,
    /// Any other transport failure.
    Other,
}

impl From<IoErrorKind> for LoadError {
    /// A premature end of the stream becomes [`LoadError::Eof`]; every other
    /// failure becomes [`LoadError::Io`].
    fn from(kind: IoErrorKind) -> (error: Self) {
        match kind {
            IoErrorKind::UnexpectedEof => LoadError::Eof,
            IoErrorKind::Other => LoadError::Io,
        }
    }
}

impl FromSpecImpl<IoErrorKind> for LoadError {
    open spec fn obeys_from_spec() -> bool {
        true
    }

    open spec fn from_spec(kind: IoErrorKind) -> Self {
        match kind {
            IoErrorKind::UnexpectedEof => LoadError::Eof,
            IoErrorKind::Other => LoadError::Io,
        }
    }
}

} // verus!
