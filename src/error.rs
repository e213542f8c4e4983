//! The errors of each direction of the codec, and of the batch driver.

use vstd::prelude::*;

verus! {

/// Why a raw file could not be turned into a compact one.
#[derive(Copy, Clone, Debug, PartialEq, Eq, Structural)]
pub enum CompError {
    /// The input is not a well-formed raw file.
    InvalidFile,
    /// The block compressor failed.
    CompressionFailure,
}

/// Why a compact file could not be turned back into a raw one.
#[derive(Copy, Clone, Debug, PartialEq, Eq, Structural)]
pub enum DecompError {
    /// The input is not a well-formed compact file, or its version is newer
    /// than this decoder understands.
    InvalidFile,
    /// The block decompressor failed.
    DecompressionFailure,
}

/// Why the batch driver could not start on a path.
#[derive(Copy, Clone, Debug, PartialEq, Eq, Structural)]
pub enum TargetPathError {
    PathNotFound,
    PathInvalid,
    CompressOrDecompressAmbiguous,
    ZstdInitError,
}

impl CompError {
    /// A sentence that describes the error.
    pub fn message(&self) -> (r: &'static str)
        ensures
            r@ == match self {
                CompError::InvalidFile => "File is invalid"@,
                CompError::CompressionFailure => "Compression failed"@,
            },
    {
        match self {
            CompError::InvalidFile => "File is invalid",
            CompError::CompressionFailure => "Compression failed",
        }
    }
}

impl DecompError {
    /// A sentence that describes the error.
    pub fn message(&self) -> (r: &'static str)
        ensures
            r@ == match self {
                DecompError::InvalidFile => "File is invalid"@,
                DecompError::DecompressionFailure => "Decompression failed"@,
            },
    {
        match self {
            DecompError::InvalidFile => "File is invalid",
            DecompError::DecompressionFailure => "Decompression failed",
        }
    }
}

impl TargetPathError {
    /// A sentence that describes the error.
    pub fn message(&self) -> (r: &'static str)
        ensures
            r@ == match self {
                TargetPathError::PathNotFound => "Replay path not found"@,
                TargetPathError::PathInvalid => "Replay path invalid"@,
                TargetPathError::CompressOrDecompressAmbiguous => "Not a slp or slpz file"@,
                TargetPathError::ZstdInitError => "Failed to init zstd"@,
            },
    {
        match self {
            TargetPathError::PathNotFound => "Replay path not found",
            TargetPathError::PathInvalid => "Replay path invalid",
            TargetPathError::CompressOrDecompressAmbiguous => "Not a slp or slpz file",
            TargetPathError::ZstdInitError => "Failed to init zstd",
        }
    }
}

} // verus!
