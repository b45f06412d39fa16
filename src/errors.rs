//! The library's error type.

use vstd::prelude::*;

verus! {

/// Why a stored book could not be read back.
#[derive(Debug, Clone, Copy, PartialEq, Eq, Structural)]
pub enum FormatIssue {
    /// The first four bytes are not the format's magic number.
    BadMagic,
    /// The header names a format version other than the supported one.
    UnsupportedVersion { version: u16 },
    /// Width, height or frame count is zero.
    EmptyDimensions,
    /// A directory entry's size is not `width * height * 4`.
    FrameSizeMismatch { frame: usize },
}

#[derive(Debug, Clone)]
pub enum PixelError {
    FileNotFound { filename: String },
    InvalidFormat { details: FormatIssue },
    InvalidCoordinates { x: u16, y: u16, width: u16, height: u16 },
    InvalidColor { details: String },
    InvalidPath { path: String },
    /// The data ended before a read of the given length at the given offset.
    UnexpectedEof { offset: u64, len: u64 },
    IoError { details: String },
    SerializationError { details: String },
}

} // verus!
